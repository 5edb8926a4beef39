//! Where a program has to be cut, and what each piece runs at.
//!
//! A stage is a run of operations that execute together over the whole block.
//! Two things ask for a cut between one stage and the next. What lies on a loop
//! through a delay line has to run a sub-block at a time, and nothing else has
//! to. And a parameter that is read off audio cannot be worked out until that
//! audio exists.
use vstd::prelude::*;
use crate::declare::Line;
use crate::graph::{find, Graph, Link};
use crate::ir::{Chunking, LineId, NodeId, NO_NODE};
use crate::nodes::NodeKind;
use crate::port::{sockets, Port};

verus! {

/// How a program's nodes divide into stages.
pub struct Plan {
    /// What each stage runs at, in the order they run.
    pub stages: Vec<Chunking>,
    /// Which stage each node of the order belongs to.
    pub of: Vec<usize>,
}

/// Where a node lies relative to the loops of the program: on one, before one,
/// or neither.
#[derive(Debug, Clone, Copy, PartialEq, Eq, Structural)]
pub enum Place {
    Before,
    Looped,
    After,
}

pub open spec fn lists<T>(rows: Seq<Vec<T>>) -> Seq<Seq<T>> {
    Seq::new(rows.len(), |i: int| rows[i]@)
}

/// Where a node stands in the order.
pub open spec fn index_from(order: Seq<NodeId>, id: NodeId, at: int) -> Option<int>
    decreases order.len() - at,
{
    if at >= order.len() {
        None
    } else if order[at] == id {
        Some(at)
    } else {
        index_from(order, id, at + 1)
    }
}

pub open spec fn index_of(order: Seq<NodeId>, id: NodeId) -> Option<int> {
    index_from(order, id, 0)
}

pub proof fn lemma_index_from(order: Seq<NodeId>, id: NodeId, at: int)
    requires
        0 <= at,
    ensures
        match index_from(order, id, at) {
            Some(i) => at <= i < order.len() && order[i] == id,
            None => forall|i: int| at <= i < order.len() ==> order[i] != id,
        },
    decreases order.len() - at,
{
    if at < order.len() && order[at] != id {
        lemma_index_from(order, id, at + 1);
    }
}

pub fn position(order: &[NodeId], id: NodeId) -> (r: Option<usize>)
    ensures
        match r {
            Some(i) => index_of(order@, id) == Some(i as int) && i < order@.len(),
            None => index_of(order@, id) is None,
        },
{
    let mut at: usize = 0;
    while at < order.len()
        invariant
            at <= order@.len(),
            index_of(order@, id) == index_from(order@, id, at as int),
        decreases order@.len() - at,
    {
        if order[at] == id {
            return Some(at);
        }
        at += 1;
    }
    None
}

/// Every list of edges names nodes that exist.
pub open spec fn edges_within(edges: Seq<Seq<usize>>, n: nat) -> bool {
    &&& edges.len() == n
    &&& forall|a: int, k: int|
        0 <= a < n && 0 <= k < edges[a].len() ==> #[trigger] edges[a][k] < n
}

/// Whether `node` can be reached from `from` along at most `steps` edges.
pub open spec fn reached(from: Set<int>, edges: Seq<Seq<usize>>, node: int, steps: nat) -> bool
    decreases steps,
{
    if steps == 0 {
        from.contains(node)
    } else {
        ||| reached(from, edges, node, (steps - 1) as nat)
        ||| exists|a: int|
            0 <= a < edges.len() && #[trigger] leads(edges, a, node) && reached(
                from,
                edges,
                a,
                (steps - 1) as nat,
            )
    }
}

pub open spec fn leads(edges: Seq<Seq<usize>>, a: int, b: int) -> bool {
    exists|k: int| 0 <= k < edges[a].len() && #[trigger] edges[a][k] == b
}

/// Whether `node` can be reached from `from` along the edges at all.
pub open spec fn reachable(from: Set<int>, edges: Seq<Seq<usize>>, node: int) -> bool {
    exists|steps: nat| reached(from, edges, node, steps)
}

pub open spec fn members(list: Seq<usize>) -> Set<int> {
    Set::new(|i: int| exists|k: int| 0 <= k < list.len() && #[trigger] list[k] == i)
}

spec fn unseen(seen: Seq<bool>) -> nat
    decreases seen.len(),
{
    if seen.len() == 0 {
        0
    } else {
        unseen(seen.drop_last()) + if seen.last() {
            0nat
        } else {
            1nat
        }
    }
}

proof fn lemma_unseen(seen: Seq<bool>, i: int)
    requires
        0 <= i < seen.len(),
        !seen[i],
    ensures
        unseen(seen.update(i, true)) + 1 == unseen(seen),
    decreases seen.len(),
{
    if i == seen.len() - 1 {
        assert(seen.update(i, true).drop_last() =~= seen.drop_last());
    } else {
        lemma_unseen(seen.drop_last(), i);
        assert(seen.update(i, true).drop_last() =~= seen.drop_last().update(i, true));
    }
}

/// Everything `from` reaches along `edges`, including `from` itself.
pub fn spread(from: &[usize], edges: &[Vec<usize>], n: usize) -> (seen: Vec<bool>)
    requires
        edges_within(lists(edges@), n as nat),
        forall|k: int| 0 <= k < from@.len() ==> #[trigger] from@[k] < n,
    ensures
        seen@.len() == n,
        forall|i: int|
            0 <= i < n ==> #[trigger] seen@[i] == reachable(
                members(from@),
                lists(edges@),
                i,
            ),
{
    let ghost rows = lists(edges@);
    let ghost start = members(from@);
    let mut seen: Vec<bool> = vec![false; n];
    let mut pending: Vec<usize> = Vec::new();
    let mut k: usize = 0;
    while k < from.len()
        invariant
            k <= from@.len(),
            seen@.len() == n,
            forall|j: int| 0 <= j < from@.len() ==> #[trigger] from@[j] < n,
            forall|j: int| 0 <= j < k ==> seen@[#[trigger] from@[j] as int],
            forall|i: int|
                0 <= i < n && #[trigger] seen@[i] ==> pending@.contains(i as usize)
                    && members(from@).contains(i),
            forall|j: int| 0 <= j < pending@.len() ==> #[trigger] pending@[j] < n,
            forall|j: int| 0 <= j < pending@.len() ==> seen@[#[trigger] pending@[j] as int],
        decreases from@.len() - k,
    {
        let node: usize = from[k];
        if !seen[node] {
            let ghost before = pending@;
            let ghost was = seen@;
            seen.set(node, true);
            pending.push(node);
            proof {
                assert(from@[k as int] == node);
                assert forall|i: int| 0 <= i < n && #[trigger] seen@[i] implies pending@.contains(
                    i as usize,
                ) && members(from@).contains(i) by {
                    if i == node {
                        assert(pending@[before.len() as int] == node);
                    } else {
                        assert(was[i]);
                        let j = choose|j: int| 0 <= j < before.len() && before[j] == i as usize;
                        assert(pending@[j] == i as usize);
                    }
                }
            }
        }
        k += 1;
    }
    proof {
        assert forall|i: int| 0 <= i < n && #[trigger] seen@[i] implies reachable(
            start,
            rows,
            i,
        ) by {
            assert(reached(start, rows, i, 0));
        }
        assert forall|i: int| #[trigger] start.contains(i) implies 0 <= i < n && seen@[i] by {
            let j = choose|j: int| 0 <= j < from@.len() && #[trigger] from@[j] == i;
            assert(seen@[from@[j] as int]);
        }
    }
    while pending.len() > 0
        invariant
            rows == lists(edges@),
            edges_within(rows, n as nat),
            seen@.len() == n,
            forall|j: int| 0 <= j < pending@.len() ==> #[trigger] pending@[j] < n,
            forall|j: int| 0 <= j < pending@.len() ==> seen@[#[trigger] pending@[j] as int],
            forall|i: int| 0 <= i < n && #[trigger] seen@[i] ==> reachable(start, rows, i),
            forall|i: int| #[trigger] start.contains(i) ==> 0 <= i < n && seen@[i],
            forall|a: int, b: int|
                0 <= a < n && 0 <= b < n && seen@[a] && !pending@.contains(a as usize)
                    && #[trigger] leads(rows, a, b) ==> seen@[b],
        decreases 2 * unseen(seen@) + pending@.len(),
    {
        let ghost whole = pending@;
        let node: usize = pending.pop().unwrap();
        let ghost popped = pending@;
        let ghost was = seen@;
        proof {
            assert(whole =~= popped.push(node));
            assert(whole[popped.len() as int] == node);
            assert(forall|j: int| 0 <= j < popped.len() ==> popped[j] == #[trigger] whole[j]);
            assert(seen@[node as int]);
            assert forall|a: int, b: int|
                0 <= a < n && 0 <= b < n && seen@[a] && !pending@.contains(a as usize) && a != node
                    && #[trigger] leads(rows, a, b) implies seen@[b] by {
                if whole.contains(a as usize) {
                    let j = choose|j: int| 0 <= j < whole.len() && whole[j] == a as usize;
                    if j < popped.len() {
                        assert(popped[j] == a as usize);
                    }
                }
            }
        }
        let mut k: usize = 0;
        while k < edges[node].len()
            invariant
                node < n,
                rows == lists(edges@),
                edges_within(rows, n as nat),
                edges@.len() == n,
                k <= edges@[node as int]@.len(),
                seen@.len() == n,
                seen@[node as int],
                forall|j: int| 0 <= j < pending@.len() ==> #[trigger] pending@[j] < n,
                forall|j: int| 0 <= j < pending@.len() ==> seen@[#[trigger] pending@[j] as int],
                forall|i: int| 0 <= i < n && #[trigger] seen@[i] ==> reachable(start, rows, i),
                forall|i: int| #[trigger] start.contains(i) ==> 0 <= i < n && seen@[i],
                forall|a: int, b: int|
                    0 <= a < n && 0 <= b < n && seen@[a] && !pending@.contains(a as usize) && a
                        != node && #[trigger] leads(rows, a, b) ==> seen@[b],
                forall|j: int| 0 <= j < k ==> seen@[#[trigger] rows[node as int][j] as int],
                2 * unseen(seen@) + pending@.len() <= 2 * unseen(was) + popped.len(),
            decreases edges@[node as int]@.len() - k,
        {
            let next: usize = edges[node][k];
            assert(rows[node as int][k as int] == next);
            if !seen[next] {
                let ghost before = pending@;
                let ghost earlier = seen@;
                proof {
                    lemma_unseen(seen@, next as int);
                    let steps = choose|steps: nat| reached(start, rows, node as int, steps);
                    assert(leads(rows, node as int, next as int));
                    assert(reached(start, rows, next as int, steps + 1));
                }
                seen.set(next, true);
                pending.push(next);
                proof {
                    assert forall|a: int, b: int|
                        0 <= a < n && 0 <= b < n && seen@[a] && !pending@.contains(a as usize) && a
                            != node && #[trigger] leads(rows, a, b) implies seen@[b] by {
                        if a == next {
                            assert(pending@[before.len() as int] == next);
                        } else if before.contains(a as usize) {
                            let j = choose|j: int|
                                0 <= j < before.len() && before[j] == a as usize;
                            assert(pending@[j] == a as usize);
                        }
                    }
                }
            }
            k += 1;
        }
        proof {
            assert forall|b: int| 0 <= b < n && #[trigger] leads(
                rows,
                node as int,
                b,
            ) implies seen@[b] by {
                let j = choose|j: int|
                    0 <= j < rows[node as int].len() && #[trigger] rows[node as int][j] == b;
                assert(seen@[rows[node as int][j] as int]);
            }
        }
    }
    proof {
        assert forall|i: int| 0 <= i < n implies #[trigger] seen@[i] == reachable(
            start,
            rows,
            i,
        ) by {
            if reachable(start, rows, i) {
                let steps = choose|steps: nat| reached(start, rows, i, steps);
                lemma_closed(start, rows, seen@, i, steps);
            }
        }
    }
    seen
}

/// A set that holds the start and everything its members lead to holds
/// everything that can be reached.
proof fn lemma_closed(
    start: Set<int>,
    edges: Seq<Seq<usize>>,
    seen: Seq<bool>,
    node: int,
    steps: nat,
)
    requires
        edges_within(edges, seen.len()),
        forall|i: int| #[trigger] start.contains(i) ==> 0 <= i < seen.len() && seen[i],
        forall|a: int, b: int|
            0 <= a < seen.len() && 0 <= b < seen.len() && seen[a] && #[trigger] leads(edges, a, b)
                ==> seen[b],
        reached(start, edges, node, steps),
    ensures
        0 <= node < seen.len(),
        seen[node],
    decreases steps,
{
    if steps > 0 {
        if reached(start, edges, node, (steps - 1) as nat) {
            lemma_closed(start, edges, seen, node, (steps - 1) as nat);
        } else {
            let a = choose|a: int|
                0 <= a < edges.len() && #[trigger] leads(edges, a, node) && reached(
                    start,
                    edges,
                    a,
                    (steps - 1) as nat,
                );
            lemma_closed(start, edges, seen, a, (steps - 1) as nat);
            let k = choose|k: int| 0 <= k < edges[a].len() && #[trigger] edges[a][k] == node;
            assert(edges[a][k] < seen.len());
        }
    }
}

/// `Before` for what feeds the loops, `After` for the rest.
pub open spec fn place_of(looped: Seq<bool>, backward: Seq<Seq<usize>>, i: int) -> Place {
    if looped[i] {
        Place::Looped
    } else if !looped.contains(true) || reachable(marked(looped), backward, i) {
        Place::Before
    } else {
        Place::After
    }
}

pub open spec fn marked(flags: Seq<bool>) -> Set<int> {
    Set::new(|i: int| 0 <= i < flags.len() && flags[i])
}

pub fn places(looped: &[bool], backward: &[Vec<usize>], n: usize) -> (r: Vec<Place>)
    requires
        looped@.len() == n,
        edges_within(lists(backward@), n as nat),
    ensures
        r@.len() == n,
        forall|i: int|
            0 <= i < n ==> #[trigger] r@[i] == place_of(looped@, lists(backward@), i),
{
    let mut seeds: Vec<usize> = Vec::new();
    let mut at: usize = 0;
    while at < n
        invariant
            at <= n == looped@.len(),
            forall|k: int|
                0 <= k < seeds@.len() ==> #[trigger] seeds@[k] < n && looped@[seeds@[k] as int],
            forall|i: int|
                0 <= i < at && #[trigger] looped@[i] ==> seeds@.contains(i as usize),
        decreases n - at,
    {
        if looped[at] {
            let ghost before = seeds@;
            seeds.push(at);
            proof {
                assert forall|i: int| 0 <= i < at + 1 && #[trigger] looped@[i] implies seeds@.contains(
                    i as usize,
                ) by {
                    if i == at {
                        assert(seeds@[before.len() as int] == at);
                    } else {
                        let k = choose|k: int| 0 <= k < before.len() && before[k] == i as usize;
                        assert(seeds@[k] == i as usize);
                    }
                }
            }
        }
        at += 1;
    }
    let mut places: Vec<Place> = Vec::new();
    if seeds.is_empty() {
        proof {
            assert(!looped@.contains(true)) by {
                if looped@.contains(true) {
                    let i = choose|i: int| 0 <= i < looped@.len() && looped@[i] == true;
                    assert(seeds@.contains(i as usize));
                }
            }
            assert forall|i: int| 0 <= i < n implies !(#[trigger] looped@[i]) by {
                if looped@[i] {
                    assert(looped@.contains(true));
                }
            }
        }
        return vec![Place::Before; n];
    }
    let feeds: Vec<bool> = spread(seeds.as_slice(), backward, n);
    proof {
        assert(looped@[seeds@[0] as int]);
        assert(looped@.contains(true));
        assert(members(seeds@) =~= marked(looped@)) by {
            assert forall|i: int| marked(looped@).contains(i) implies members(seeds@).contains(
                i,
            ) by {
                assert(seeds@.contains(i as usize));
                let k = choose|k: int| 0 <= k < seeds@.len() && seeds@[k] == i as usize;
                assert(seeds@[k] == i);
            }
        }
    }
    let mut index: usize = 0;
    while index < n
        invariant
            index <= n == looped@.len() == feeds@.len(),
            looped@.contains(true),
            forall|i: int|
                0 <= i < n ==> #[trigger] feeds@[i] == reachable(
                    marked(looped@),
                    lists(backward@),
                    i,
                ),
            places@.len() == index,
            forall|i: int|
                0 <= i < index ==> #[trigger] places@[i] == place_of(
                    looped@,
                    lists(backward@),
                    i,
                ),
        decreases n - index,
    {
        let place: Place = if looped[index] {
            Place::Looped
        } else if feeds[index] {
            Place::Before
        } else {
            Place::After
        };
        places.push(place);
        index += 1;
    }
    places
}

/// A level and one more for a change of rate, as far as levels go.
pub open spec fn raised(level: u16, cut: bool) -> u16 {
    if cut && level < u16::MAX {
        (level + 1) as u16
    } else {
        level
    }
}

/// One edge relaxed: what it leads to lies no lower than where it comes from.
pub open spec fn relax_edge(levels: Seq<u16>, from: int, to: int, cut: bool) -> Seq<u16> {
    let want = raised(levels[from], cut);
    if levels[to] < want {
        levels.update(to, want)
    } else {
        levels
    }
}

/// The first `count` edges out of a node relaxed in turn.
pub open spec fn relax_node(
    levels: Seq<u16>,
    from: int,
    forward: Seq<usize>,
    cuts: Seq<bool>,
    count: nat,
) -> Seq<u16>
    decreases count,
{
    if count == 0 {
        levels
    } else {
        relax_edge(
            relax_node(levels, from, forward, cuts, (count - 1) as nat),
            from,
            forward[count - 1] as int,
            cuts[count - 1],
        )
    }
}

pub open spec fn shorter(a: nat, b: nat) -> nat {
    if a < b {
        a
    } else {
        b
    }
}

/// The edges out of the first `count` nodes relaxed in turn.
pub open spec fn relax_nodes(
    levels: Seq<u16>,
    forward: Seq<Seq<usize>>,
    cuts: Seq<Seq<bool>>,
    count: nat,
) -> Seq<u16>
    decreases count,
{
    if count == 0 {
        levels
    } else {
        let from = count - 1;
        relax_node(
            relax_nodes(levels, forward, cuts, from as nat),
            from,
            forward[from],
            cuts[from],
            shorter(forward[from].len(), cuts[from].len()),
        )
    }
}

/// The highest level on a loop among the first `count` nodes.
pub open spec fn highest_looped(levels: Seq<u16>, looped: Seq<bool>, count: nat) -> u16
    decreases count,
{
    if count == 0 {
        0
    } else {
        let lower = highest_looped(levels, looped, (count - 1) as nat);
        if looped[count - 1] && levels[count - 1] > lower {
            levels[count - 1]
        } else {
            lower
        }
    }
}

/// Everything on a loop raised to one level.
pub open spec fn collapsed(levels: Seq<u16>, looped: Seq<bool>) -> Seq<u16> {
    let inside = highest_looped(levels, looped, levels.len());
    Seq::new(
        levels.len(),
        |i: int|
            if looped[i] && levels[i] < inside {
                inside
            } else {
                levels[i]
            },
    )
}

/// Every edge relaxed once, and the loops collapsed.
pub open spec fn level_round(
    levels: Seq<u16>,
    looped: Seq<bool>,
    forward: Seq<Seq<usize>>,
    cuts: Seq<Seq<bool>>,
) -> Seq<u16> {
    collapsed(relax_nodes(levels, forward, cuts, levels.len()), looped)
}

pub open spec fn level_rounds(
    levels: Seq<u16>,
    looped: Seq<bool>,
    forward: Seq<Seq<usize>>,
    cuts: Seq<Seq<bool>>,
    count: nat,
) -> Seq<u16>
    decreases count,
{
    if count == 0 {
        levels
    } else {
        level_round(
            level_rounds(levels, looped, forward, cuts, (count - 1) as nat),
            looped,
            forward,
            cuts,
        )
    }
}

/// How many changes of rate the longest path to each node crosses: one round
/// more than there are nodes, from nothing.
pub open spec fn levels_of(
    looped: Seq<bool>,
    forward: Seq<Seq<usize>>,
    cuts: Seq<Seq<bool>>,
    n: nat,
) -> Seq<u16> {
    level_rounds(Seq::new(n, |i: int| 0u16), looped, forward, cuts, n + 1)
}

proof fn lemma_settled(
    levels: Seq<u16>,
    looped: Seq<bool>,
    forward: Seq<Seq<usize>>,
    cuts: Seq<Seq<bool>>,
    start: Seq<u16>,
    done: nat,
    count: nat,
)
    requires
        level_rounds(start, looped, forward, cuts, done) == levels,
        level_round(levels, looped, forward, cuts) == levels,
        done <= count,
    ensures
        level_rounds(start, looped, forward, cuts, count) == levels,
    decreases count,
{
    if done < count {
        lemma_settled(levels, looped, forward, cuts, start, done, (count - 1) as nat);
    }
}

/// How many changes of rate the longest path to each node crosses.
///
/// Everything on a loop shares one level, because a loop runs as a piece.
pub fn levels(looped: &[bool], forward: &[Vec<usize>], cuts: &[Vec<bool>], n: usize) -> (r: Vec<u16>)
    requires
        looped@.len() == n,
        n < usize::MAX,
        edges_within(lists(forward@), n as nat),
        cuts@.len() == n,
    ensures
        r@ == levels_of(looped@, lists(forward@), lists(cuts@), n as nat),
        r@.len() == n,
{
    let ghost rows = lists(forward@);
    let ghost crossings = lists(cuts@);
    let ghost zeros: Seq<u16> = Seq::new(n as nat, |i: int| 0u16);
    let mut levels: Vec<u16> = vec![0u16; n];
    assert(levels@ =~= zeros);
    let mut round: usize = 0;
    while round <= n
        invariant_except_break
            round <= n + 1,
            levels@ == level_rounds(zeros, looped@, rows, crossings, round as nat),
        invariant
            n < usize::MAX,
            looped@.len() == n,
            levels@.len() == n,
            rows == lists(forward@),
            crossings == lists(cuts@),
            edges_within(rows, n as nat),
            cuts@.len() == n,
            forward@.len() == n,
        ensures
            levels@ == level_rounds(zeros, looped@, rows, crossings, (n + 1) as nat),
        decreases n + 1 - round,
    {
        let ghost start = levels@;
        let mut moved: bool = false;
        let mut from: usize = 0;
        while from < n
            invariant
                from <= n,
                looped@.len() == n,
                levels@.len() == n,
                rows == lists(forward@),
                crossings == lists(cuts@),
                edges_within(rows, n as nat),
                cuts@.len() == n,
                forward@.len() == n,
                levels@ == relax_nodes(start, rows, crossings, from as nat),
                !moved ==> levels@ == start,
            decreases n - from,
        {
            let ghost before = levels@;
            let outs: usize = if forward[from].len() < cuts[from].len() {
                forward[from].len()
            } else {
                cuts[from].len()
            };
            assert(rows[from as int] == forward@[from as int]@);
            assert(crossings[from as int] == cuts@[from as int]@);
            let mut k: usize = 0;
            while k < outs
                invariant
                    from < n,
                    k <= outs,
                    outs == shorter(rows[from as int].len(), crossings[from as int].len()),
                    levels@.len() == n,
                    rows == lists(forward@),
                    crossings == lists(cuts@),
                    edges_within(rows, n as nat),
                    cuts@.len() == n,
                    forward@.len() == n,
                    levels@ == relax_node(
                        before,
                        from as int,
                        rows[from as int],
                        crossings[from as int],
                        k as nat,
                    ),
                    !moved ==> levels@ == start,
                decreases outs - k,
            {
                let next: usize = forward[from][k];
                let cut: bool = cuts[from][k];
                assert(rows[from as int][k as int] == next);
                assert(crossings[from as int][k as int] == cut);
                let want: u16 = if cut {
                    levels[from].saturating_add(1)
                } else {
                    levels[from]
                };
                if levels[next] < want {
                    levels.set(next, want);
                    moved = true;
                }
                k += 1;
            }
            from += 1;
        }

        let ghost relaxed = levels@;
        let mut inside: u16 = 0;
        let mut index: usize = 0;
        while index < n
            invariant
                index <= n,
                looped@.len() == n,
                levels@.len() == n,
                levels@ == relaxed,
                inside == highest_looped(relaxed, looped@, index as nat),
            decreases n - index,
        {
            if looped[index] && levels[index] > inside {
                inside = levels[index];
            }
            index += 1;
        }
        index = 0;
        while index < n
            invariant
                index <= n,
                looped@.len() == n,
                levels@.len() == n,
                relaxed.len() == n,
                !moved ==> levels@ == start,
                forall|i: int|
                    0 <= i < n ==> #[trigger] levels@[i] == if i < index && looped@[i]
                        && relaxed[i] < inside {
                        inside
                    } else {
                        relaxed[i]
                    },
            decreases n - index,
        {
            if looped[index] && levels[index] < inside {
                levels.set(index, inside);
                moved = true;
            }
            index += 1;
        }
        assert(levels@ =~= level_round(start, looped@, rows, crossings));
        if !moved {
            proof {
                lemma_settled(
                    start,
                    looped@,
                    rows,
                    crossings,
                    zeros,
                    round as nat,
                    (n + 1) as nat,
                );
            }
            break ;
        }
        round += 1;
    }
    levels
}

/// Whether a node reads an audio line that something writes.
pub open spec fn reads_line(graph: Graph, order: Seq<NodeId>, line: LineId, i: int) -> bool {
    match find(graph.nodes@, order[i]) {
        Some(at) => graph.nodes@[at].kind matches NodeKind::DelayRead(read) && read.line == line,
        None => false,
    }
}

/// Whether a line carries audio from a writer to a reader that runs.
pub open spec fn is_closed(graph: Graph, order: Seq<NodeId>, line: Line) -> bool {
    &&& line.ty is Audio
    &&& line.writer != NO_NODE
    &&& exists|i: int| 0 <= i < order.len() && #[trigger] reads_line(graph, order, line.id, i)
}

/// Whether a node is an end of a line.
pub open spec fn is_end(graph: Graph, order: Seq<NodeId>, line: Line, i: int) -> bool {
    ||| 0 <= i < order.len() && reads_line(graph, order, line.id, i)
    ||| index_of(order, line.writer) == Some(i)
}

/// Both ends of every closed line. A line missing one end can carry nothing
/// back.
pub open spec fn loop_ends(graph: Graph, order: Seq<NodeId>, lines: Seq<Line>) -> Set<int> {
    Set::new(
        |i: int|
            exists|l: int|
                0 <= l < lines.len() && is_closed(graph, order, #[trigger] lines[l]) && is_end(
                    graph,
                    order,
                    lines[l],
                    i,
                ),
    )
}

/// The nodes lying between the two ends of some closed audio line: reached from
/// an end, and reaching one.
pub fn looped(
    graph: &Graph,
    order: &[NodeId],
    lines: &[Line],
    forward: &[Vec<usize>],
    backward: &[Vec<usize>],
) -> (r: Vec<bool>)
    requires
        edges_within(lists(forward@), order@.len()),
        edges_within(lists(backward@), order@.len()),
    ensures
        r@.len() == order@.len(),
        forall|i: int|
            0 <= i < order@.len() ==> #[trigger] r@[i] == (reachable(
                loop_ends(*graph, order@, lines@),
                lists(forward@),
                i,
            ) && reachable(loop_ends(*graph, order@, lines@), lists(backward@), i)),
{
    let n: usize = order.len();
    let mut ends: Vec<usize> = Vec::new();
    let mut l: usize = 0;
    while l < lines.len()
        invariant
            l <= lines@.len(),
            n == order@.len(),
            forall|k: int| 0 <= k < ends@.len() ==> #[trigger] ends@[k] < n,
            forall|i: int|
                #[trigger] members(ends@).contains(i) <==> exists|m: int|
                    0 <= m < l && is_closed(*graph, order@, #[trigger] lines@[m]) && is_end(
                        *graph,
                        order@,
                        lines@[m],
                        i,
                    ),
        decreases lines@.len() - l,
    {
        let line: Line = lines[l];
        let ghost before = ends@;
        let mut closed: bool = false;
        if line.ty.carries_audio() && line.writer != NO_NODE {
            let mut i: usize = 0;
            while i < n
                invariant
                    i <= n == order@.len(),
                    line == lines@[l as int],
                    closed == exists|j: int|
                        0 <= j < i && #[trigger] reads_line(*graph, order@, line.id, j),
                    ends@.len() >= before.len(),
                    forall|k: int| 0 <= k < before.len() ==> #[trigger] ends@[k] == before[k],
                    forall|k: int| 0 <= k < ends@.len() ==> #[trigger] ends@[k] < n,
                    forall|k: int|
                        before.len() <= k < ends@.len() ==> reads_line(
                            *graph,
                            order@,
                            line.id,
                            #[trigger] ends@[k] as int,
                        ),
                    forall|j: int|
                        0 <= j < i && #[trigger] reads_line(*graph, order@, line.id, j)
                            ==> ends@.contains(j as usize),
                decreases n - i,
            {
                let reads: bool = match graph.node(order[i]) {
                    Some(node) => match &node.kind {
                        NodeKind::DelayRead(read) => read.line == line.id,
                        _ => false,
                    },
                    None => false,
                };
                assert(reads == reads_line(*graph, order@, line.id, i as int));
                if reads {
                    let ghost shorter_ends = ends@;
                    ends.push(i);
                    closed = true;
                    proof {
                        assert(ends@[shorter_ends.len() as int] == i);
                        assert forall|j: int|
                            0 <= j < i + 1 && #[trigger] reads_line(
                                *graph,
                                order@,
                                line.id,
                                j,
                            ) implies ends@.contains(j as usize) by {
                            if j < i {
                                let k = choose|k: int|
                                    0 <= k < shorter_ends.len() && shorter_ends[k] == j as usize;
                                assert(ends@[k] == j as usize);
                            }
                        }
                    }
                }
                i += 1;
            }
            let ghost readers = ends@;
            let writer: Option<usize> = position(order, line.writer);
            if closed {
                if let Some(at) = writer {
                    ends.push(at);
                }
            }
            proof {
                assert(closed == is_closed(*graph, order@, line));
                assert forall|i: int| #[trigger] members(ends@).contains(i) <==> members(
                    before,
                ).contains(i) || (closed && is_end(*graph, order@, line, i)) by {
                    if members(ends@).contains(i) {
                        let k = choose|k: int| 0 <= k < ends@.len() && #[trigger] ends@[k] == i;
                        if k < before.len() {
                            assert(before[k] == i);
                        } else if k < readers.len() {
                            assert(readers[k] == i);
                            assert(reads_line(*graph, order@, line.id, readers[k] as int));
                        }
                    }
                    if members(before).contains(i) {
                        let k = choose|k: int| 0 <= k < before.len() && #[trigger] before[k] == i;
                        assert(readers[k] == before[k]);
                        assert(ends@[k] == i);
                    }
                    if closed && is_end(*graph, order@, line, i) {
                        if 0 <= i < order@.len() && reads_line(*graph, order@, line.id, i) {
                            assert(readers.contains(i as usize));
                            let k = choose|k: int|
                                0 <= k < readers.len() && readers[k] == i as usize;
                            assert(ends@[k] == i);
                        } else {
                            assert(ends@[readers.len() as int] == i);
                        }
                    }
                }
            }
        }
        proof {
            let ghost is_one = closed && is_closed(*graph, order@, line);
            assert(closed == is_closed(*graph, order@, line));
            assert forall|i: int| #[trigger] members(ends@).contains(i) <==> exists|m: int|
                0 <= m < l + 1 && is_closed(*graph, order@, #[trigger] lines@[m]) && is_end(
                    *graph,
                    order@,
                    lines@[m],
                    i,
                ) by {
                assert(members(ends@).contains(i) <==> members(before).contains(i) || (closed
                    && is_end(*graph, order@, line, i)));
                if members(before).contains(i) {
                    let m = choose|m: int|
                        0 <= m < l && is_closed(*graph, order@, #[trigger] lines@[m]) && is_end(
                            *graph,
                            order@,
                            lines@[m],
                            i,
                        );
                    assert(is_closed(*graph, order@, lines@[m]));
                }
                if closed && is_end(*graph, order@, line, i) {
                    assert(is_closed(*graph, order@, lines@[l as int]));
                }
            }
        }
        l += 1;
    }
    proof {
        assert(members(ends@) =~= loop_ends(*graph, order@, lines@));
    }
    let downstream: Vec<bool> = spread(ends.as_slice(), forward, n);
    let upstream: Vec<bool> = spread(ends.as_slice(), backward, n);
    let mut both: Vec<bool> = Vec::new();
    let mut i: usize = 0;
    while i < n
        invariant
            i <= n == downstream@.len() == upstream@.len(),
            both@.len() == i,
            forall|j: int| 0 <= j < i ==> #[trigger] both@[j] == (downstream@[j] && upstream@[j]),
        decreases n - i,
    {
        both.push(downstream[i] && upstream[i]);
        i += 1;
    }
    both
}

/// Whether a value crossing a link changes rate: audio into anything that makes
/// something other than audio, which has to wait until that audio exists.
pub open spec fn crosses_rate(graph: Graph, link: Link) -> bool {
    &&& graph.out_type(link.from, link.from_port) matches Some(ty) && ty is Audio
    &&& match find(graph.nodes@, link.to) {
        Some(at) => exists|k: int|
            0 <= k < graph.nodes@[at].kind.outputs().len() && !((
            #[trigger] graph.nodes@[at].kind.outputs()[k]).ty is Audio),
        None => false,
    }
}

pub fn rate_cut(graph: &Graph, link: Link) -> (r: bool)
    ensures
        r == crosses_rate(*graph, link),
{
    let carries: bool = match graph.output_type(link.from, link.from_port) {
        Some(ty) => ty.carries_audio(),
        None => false,
    };
    let makes: bool = match graph.node(link.to) {
        Some(node) => {
            let ports: Vec<Port> = node.kind.output_ports();
            let ghost outs = node.kind.outputs();
            assert(sockets(ports@) == outs);
            let mut other: bool = false;
            let mut k: usize = 0;
            while k < ports.len()
                invariant
                    k <= ports@.len(),
                    sockets(ports@) == outs,
                    other == exists|j: int|
                        0 <= j < k && !((#[trigger] outs[j]).ty is Audio),
                decreases ports@.len() - k,
            {
                assert(outs[k as int] == ports@[k as int]@);
                if !ports[k].ty.carries_audio() {
                    other = true;
                }
                k += 1;
            }
            assert(sockets(ports@).len() == ports@.len());
            other
        },
        None => false,
    };
    carries && makes
}

/// The two ends of a link in the order, when both of them run.
pub open spec fn ends_of(order: Seq<NodeId>, link: Link) -> Option<(int, int)> {
    match (index_of(order, link.from), index_of(order, link.to)) {
        (Some(from), Some(to)) => Some((from, to)),
        _ => None,
    }
}

/// Where the first `count` links out of a node go, and whether each of them
/// crosses a change of rate.
pub open spec fn outs(graph: Graph, order: Seq<NodeId>, from: int, count: nat) -> Seq<(usize, bool)>
    decreases count,
{
    if count == 0 {
        Seq::empty()
    } else {
        let link = graph.links@[count - 1];
        let before = outs(graph, order, from, (count - 1) as nat);
        match ends_of(order, link) {
            Some((a, b)) if a == from => before.push((b as usize, crosses_rate(graph, link))),
            _ => before,
        }
    }
}

/// Where the first `count` links into a node come from.
pub open spec fn ins(graph: Graph, order: Seq<NodeId>, to: int, count: nat) -> Seq<usize>
    decreases count,
{
    if count == 0 {
        Seq::empty()
    } else {
        let before = ins(graph, order, to, (count - 1) as nat);
        match ends_of(order, graph.links@[count - 1]) {
            Some((a, b)) if b == to => before.push(a as usize),
            _ => before,
        }
    }
}

pub open spec fn forward_of(graph: Graph, order: Seq<NodeId>) -> Seq<Seq<usize>> {
    Seq::new(
        order.len(),
        |a: int|
            outs(graph, order, a, graph.links@.len()).map_values(|out: (usize, bool)| out.0),
    )
}

pub open spec fn cuts_of(graph: Graph, order: Seq<NodeId>) -> Seq<Seq<bool>> {
    Seq::new(
        order.len(),
        |a: int|
            outs(graph, order, a, graph.links@.len()).map_values(|out: (usize, bool)| out.1),
    )
}

pub open spec fn backward_of(graph: Graph, order: Seq<NodeId>) -> Seq<Seq<usize>> {
    Seq::new(order.len(), |b: int| ins(graph, order, b, graph.links@.len()))
}

/// Which nodes lie on a loop.
pub open spec fn looped_of(graph: Graph, order: Seq<NodeId>, lines: Seq<Line>) -> Seq<bool> {
    Seq::new(
        order.len(),
        |i: int|
            reachable(loop_ends(graph, order, lines), forward_of(graph, order), i) && reachable(
                loop_ends(graph, order, lines),
                backward_of(graph, order),
                i,
            ),
    )
}

pub open spec fn level_of(graph: Graph, order: Seq<NodeId>, lines: Seq<Line>, i: int) -> u16 {
    levels_of(
        looped_of(graph, order, lines),
        forward_of(graph, order),
        cuts_of(graph, order),
        order.len(),
    )[i]
}

pub open spec fn rank(place: Place) -> int {
    match place {
        Place::Before => 0,
        Place::Looped => 1,
        Place::After => 2,
    }
}

/// What decides the stage of a node: its level first, and within a level
/// whether it lies before, on or after the loops.
pub open spec fn stage_key(graph: Graph, order: Seq<NodeId>, lines: Seq<Line>, i: int) -> int {
    3 * level_of(graph, order, lines, i) + rank(
        place_of(looped_of(graph, order, lines), backward_of(graph, order), i),
    )
}

/// Whether some node has that key.
pub open spec fn is_key(graph: Graph, order: Seq<NodeId>, lines: Seq<Line>, key: int) -> bool {
    exists|i: int| 0 <= i < order.len() && #[trigger] stage_key(graph, order, lines, i) == key
}

pub open spec fn ascending(keys: Seq<int>) -> bool {
    forall|i: int, j: int| 0 <= i < j < keys.len() ==> #[trigger] keys[i] < #[trigger] keys[j]
}

pub open spec fn chunking_of(key: int) -> Chunking {
    if key % 3 == 1 {
        Chunking::SubBlock
    } else {
        Chunking::WholeBlock
    }
}

/// One stage for each key that some node has, in ascending order, and each node
/// in the stage of its key.
pub open spec fn is_plan(
    stages: Seq<Chunking>,
    of: Seq<usize>,
    keys: Seq<int>,
    graph: Graph,
    order: Seq<NodeId>,
    lines: Seq<Line>,
) -> bool {
    &&& ascending(keys)
    &&& forall|s: int| 0 <= s < keys.len() ==> is_key(graph, order, lines, #[trigger] keys[s])
    &&& stages.len() == keys.len()
    &&& forall|s: int| 0 <= s < keys.len() ==> #[trigger] stages[s] == chunking_of(keys[s])
    &&& of.len() == order.len()
    &&& forall|i: int|
        0 <= i < order.len() ==> (#[trigger] of[i]) < keys.len() && keys[of[i] as int] == stage_key(
            graph,
            order,
            lines,
            i,
        )
}

impl Plan {
    pub open spec fn cuts_up(&self, graph: Graph, order: Seq<NodeId>, lines: Seq<Line>) -> bool {
        exists|keys: Seq<int>| is_plan(self.stages@, self.of@, keys, graph, order, lines)
    }
}

/// Ascending lists of the same keys are the same list.
proof fn lemma_same_keys(a: Seq<int>, b: Seq<int>)
    requires
        ascending(a),
        ascending(b),
        forall|key: int| a.contains(key) <==> b.contains(key),
    ensures
        a == b,
    decreases a.len(),
{
    if a.len() == 0 {
        if b.len() > 0 {
            assert(b.contains(b[0]));
        }
        assert(a =~= b);
    } else {
        assert(a.contains(a.last()));
        assert(b.len() > 0);
        assert(b.contains(b.last()));
        let i = choose|i: int| 0 <= i < b.len() && b[i] == a.last();
        let j = choose|j: int| 0 <= j < a.len() && a[j] == b.last();
        assert(a.last() == b.last());
        let x = a.drop_last();
        let y = b.drop_last();
        assert forall|key: int| x.contains(key) <==> y.contains(key) by {
            if x.contains(key) {
                let k = choose|k: int| 0 <= k < x.len() && x[k] == key;
                assert(a[k] == key && a[k] < a[a.len() - 1]);
                assert(a.contains(key));
                let m = choose|m: int| 0 <= m < b.len() && b[m] == key;
                assert(y[m] == key);
            }
            if y.contains(key) {
                let k = choose|k: int| 0 <= k < y.len() && y[k] == key;
                assert(b[k] == key && b[k] < b[b.len() - 1]);
                assert(b.contains(key));
                let m = choose|m: int| 0 <= m < a.len() && a[m] == key;
                assert(x[m] == key);
            }
        }
        lemma_same_keys(x, y);
        assert(a =~= x.push(a.last()));
        assert(b =~= y.push(b.last()));
    }
}

/// There is one way to cut an order into stages.
pub proof fn law_there_is_one_plan(
    graph: Graph,
    order: Seq<NodeId>,
    lines: Seq<Line>,
    a: Plan,
    b: Plan,
)
    requires
        a.cuts_up(graph, order, lines),
        b.cuts_up(graph, order, lines),
    ensures
        a.stages@ == b.stages@,
        a.of@ == b.of@,
{
    let p = choose|keys: Seq<int>| is_plan(a.stages@, a.of@, keys, graph, order, lines);
    let q = choose|keys: Seq<int>| is_plan(b.stages@, b.of@, keys, graph, order, lines);
    assert forall|key: int| p.contains(key) <==> q.contains(key) by {
        if p.contains(key) {
            let s = choose|s: int| 0 <= s < p.len() && p[s] == key;
            assert(is_key(graph, order, lines, p[s]));
            let i = choose|i: int|
                0 <= i < order.len() && #[trigger] stage_key(graph, order, lines, i) == key;
            assert(q[b.of@[i] as int] == key);
        }
        if q.contains(key) {
            let s = choose|s: int| 0 <= s < q.len() && q[s] == key;
            assert(is_key(graph, order, lines, q[s]));
            let i = choose|i: int|
                0 <= i < order.len() && #[trigger] stage_key(graph, order, lines, i) == key;
            assert(p[a.of@[i] as int] == key);
        }
    }
    lemma_same_keys(p, q);
    assert(a.stages@ =~= b.stages@);
    assert forall|i: int| 0 <= i < order.len() implies a.of@[i] == b.of@[i] by {
        let x = a.of@[i] as int;
        let y = b.of@[i] as int;
        if x < y {
            assert(p[x] < p[y]);
        }
        if y < x {
            assert(p[y] < p[x]);
        }
    }
    assert(a.of@ =~= b.of@);
}

spec fn goes_from(order: Seq<NodeId>, link: Link, from: int) -> bool {
    ends_of(order, link) is Some && (ends_of(order, link)->0).0 == from
}

spec fn goes_to(order: Seq<NodeId>, link: Link, to: int) -> bool {
    ends_of(order, link) is Some && (ends_of(order, link)->0).1 == to
}

proof fn lemma_outs(graph: Graph, order: Seq<NodeId>, from: int, count: nat)
    requires
        count <= graph.links@.len(),
        order.len() <= usize::MAX,
    ensures
        forall|k: int|
            0 <= k < outs(graph, order, from, count).len() ==> (#[trigger] outs(
                graph,
                order,
                from,
                count,
            )[k]).0 < order.len() && exists|l: int|
                0 <= l < count && ends_of(order, #[trigger] graph.links@[l]) == Some(
                    (from, outs(graph, order, from, count)[k].0 as int),
                ) && crosses_rate(graph, graph.links@[l]) == outs(graph, order, from, count)[k].1,
        forall|l: int|
            0 <= l < count && goes_from(order, #[trigger] graph.links@[l], from) ==> exists|k: int|
                0 <= k < outs(graph, order, from, count).len() && (#[trigger] outs(
                    graph,
                    order,
                    from,
                    count,
                )[k]) == (
                    (ends_of(order, graph.links@[l])->0).1 as usize,
                    crosses_rate(graph, graph.links@[l]),
                ),
    decreases count,
{
    if count > 0 {
        lemma_outs(graph, order, from, (count - 1) as nat);
        let link = graph.links@[count - 1];
        let before = outs(graph, order, from, (count - 1) as nat);
        let after = outs(graph, order, from, count);
        lemma_index_from(order, link.to, 0);
        assert forall|k: int| 0 <= k < after.len() implies (#[trigger] after[k]).0 < order.len()
            && exists|l: int|
            0 <= l < count && ends_of(order, #[trigger] graph.links@[l]) == Some(
                (from, after[k].0 as int),
            ) && crosses_rate(graph, graph.links@[l]) == after[k].1 by {
            if k < before.len() {
                assert(after[k] == before[k]);
                let l = choose|l: int|
                    0 <= l < count - 1 && ends_of(order, #[trigger] graph.links@[l]) == Some(
                        (from, before[k].0 as int),
                    ) && crosses_rate(graph, graph.links@[l]) == before[k].1;
                assert(ends_of(order, graph.links@[l]) == Some((from, after[k].0 as int)));
            } else {
                assert(ends_of(order, graph.links@[count - 1]) == Some(
                    (from, after[k].0 as int),
                ));
            }
        }
        assert forall|l: int|
            0 <= l < count && goes_from(
                order,
                #[trigger] graph.links@[l],
                from,
            ) implies exists|k: int|
            0 <= k < after.len() && (#[trigger] after[k]) == (
                (ends_of(order, graph.links@[l])->0).1 as usize,
                crosses_rate(graph, graph.links@[l]),
            ) by {
            let b = (ends_of(order, graph.links@[l])->0).1 as usize;
            if l < count - 1 {
                let k = choose|k: int|
                    0 <= k < before.len() && (#[trigger] before[k]) == (
                        b,
                        crosses_rate(graph, graph.links@[l]),
                    );
                assert(after[k] == before[k]);
            } else {
                assert(after[before.len() as int] == (b, crosses_rate(graph, graph.links@[l])));
            }
        }
    }
}

proof fn lemma_ins(graph: Graph, order: Seq<NodeId>, to: int, count: nat)
    requires
        count <= graph.links@.len(),
        order.len() <= usize::MAX,
    ensures
        forall|k: int|
            0 <= k < ins(graph, order, to, count).len() ==> (#[trigger] ins(
                graph,
                order,
                to,
                count,
            )[k]) < order.len() && exists|l: int|
                0 <= l < count && ends_of(order, #[trigger] graph.links@[l]) == Some(
                    (ins(graph, order, to, count)[k] as int, to),
                ),
        forall|l: int|
            0 <= l < count && goes_to(order, #[trigger] graph.links@[l], to) ==> exists|k: int|
                0 <= k < ins(graph, order, to, count).len() && (#[trigger] ins(
                    graph,
                    order,
                    to,
                    count,
                )[k]) == (ends_of(order, graph.links@[l])->0).0 as usize,
    decreases count,
{
    if count > 0 {
        lemma_ins(graph, order, to, (count - 1) as nat);
        let link = graph.links@[count - 1];
        let before = ins(graph, order, to, (count - 1) as nat);
        let after = ins(graph, order, to, count);
        lemma_index_from(order, link.from, 0);
        assert forall|k: int| 0 <= k < after.len() implies (#[trigger] after[k]) < order.len()
            && exists|l: int|
            0 <= l < count && ends_of(order, #[trigger] graph.links@[l]) == Some(
                (after[k] as int, to),
            ) by {
            if k < before.len() {
                assert(after[k] == before[k]);
                let l = choose|l: int|
                    0 <= l < count - 1 && ends_of(order, #[trigger] graph.links@[l]) == Some(
                        (before[k] as int, to),
                    );
                assert(ends_of(order, graph.links@[l]) == Some((after[k] as int, to)));
            } else {
                assert(ends_of(order, graph.links@[count - 1]) == Some((after[k] as int, to)));
            }
        }
        assert forall|l: int|
            0 <= l < count && goes_to(order, #[trigger] graph.links@[l], to) implies exists|k: int|
            0 <= k < after.len() && (#[trigger] after[k]) == (ends_of(order, graph.links@[l])->0).0 as usize by {
            let a = (ends_of(order, graph.links@[l])->0).0 as usize;
            if l < count - 1 {
                let k = choose|k: int| 0 <= k < before.len() && (#[trigger] before[k]) == a;
                assert(after[k] == before[k]);
            } else {
                assert(after[before.len() as int] == a);
            }
        }
    }
}

/// Whether some link runs from one node of the order to another.
pub open spec fn linked(graph: Graph, order: Seq<NodeId>, a: int, b: int) -> bool {
    exists|l: int|
        0 <= l < graph.links@.len() && ends_of(order, #[trigger] graph.links@[l]) == Some((a, b))
}

proof fn lemma_forward(graph: Graph, order: Seq<NodeId>, a: int, b: int)
    requires
        order.len() <= usize::MAX,
        0 <= a < order.len(),
        0 <= b < order.len(),
    ensures
        leads(forward_of(graph, order), a, b) <==> linked(graph, order, a, b),
{
    let count = graph.links@.len();
    let fwd = forward_of(graph, order);
    let out = outs(graph, order, a, count);
    lemma_outs(graph, order, a, count);
    if leads(fwd, a, b) {
        let k = choose|k: int| 0 <= k < fwd[a].len() && #[trigger] fwd[a][k] == b;
        assert(out[k].0 == b);
    }
    if linked(graph, order, a, b) {
        let l = choose|l: int|
            0 <= l < count && ends_of(order, #[trigger] graph.links@[l]) == Some((a, b));
        assert(goes_from(order, graph.links@[l], a));
        let j = choose|j: int|
            0 <= j < out.len() && (#[trigger] out[j]) == (
                b as usize,
                crosses_rate(graph, graph.links@[l]),
            );
        assert(fwd[a][j] == b);
    }
}

proof fn lemma_backward(graph: Graph, order: Seq<NodeId>, a: int, b: int)
    requires
        order.len() <= usize::MAX,
        0 <= a < order.len(),
        0 <= b < order.len(),
    ensures
        leads(backward_of(graph, order), b, a) <==> linked(graph, order, a, b),
{
    let count = graph.links@.len();
    let bwd = backward_of(graph, order);
    let into = ins(graph, order, b, count);
    lemma_ins(graph, order, b, count);
    if leads(bwd, b, a) {
        let k = choose|k: int| 0 <= k < bwd[b].len() && #[trigger] bwd[b][k] == a;
        assert(into[k] == a);
    }
    if linked(graph, order, a, b) {
        let l = choose|l: int|
            0 <= l < count && ends_of(order, #[trigger] graph.links@[l]) == Some((a, b));
        assert(goes_to(order, graph.links@[l], b));
        let j = choose|j: int| 0 <= j < into.len() && (#[trigger] into[j]) == a as usize;
        assert(bwd[b][j] == a);
    }
}

/// The edges of a graph name nodes of the order.
proof fn lemma_edges(graph: Graph, order: Seq<NodeId>)
    requires
        order.len() <= usize::MAX,
    ensures
        edges_within(forward_of(graph, order), order.len()),
        edges_within(backward_of(graph, order), order.len()),
{
    let fwd = forward_of(graph, order);
    let bwd = backward_of(graph, order);
    let count = graph.links@.len();
    assert forall|a: int, k: int| 0 <= a < order.len() && 0 <= k < fwd[a].len() implies (
    #[trigger] fwd[a][k]) < order.len() by {
        lemma_outs(graph, order, a, count);
        assert(fwd[a][k] == outs(graph, order, a, count)[k].0);
    }
    assert forall|a: int, k: int| 0 <= a < order.len() && 0 <= k < bwd[a].len() implies (
    #[trigger] bwd[a][k]) < order.len() by {
        lemma_ins(graph, order, a, count);
        assert(bwd[a][k] == ins(graph, order, a, count)[k]);
    }
}

/// Cuts the graph into stages.
pub fn plan(graph: &Graph, order: &[NodeId], lines: &[Line]) -> (r: Plan)
    requires
        order@.len() < usize::MAX,
    ensures
        r.cuts_up(*graph, order@, lines@),
{
    let n: usize = order.len();
    let mut forward: Vec<Vec<usize>> = Vec::new();
    let mut backward: Vec<Vec<usize>> = Vec::new();
    let mut cuts: Vec<Vec<bool>> = Vec::new();
    while forward.len() < n
        invariant
            n == order@.len(),
            forward@.len() == backward@.len() == cuts@.len() <= n,
            forall|a: int| 0 <= a < forward@.len() ==> (#[trigger] forward@[a])@.len() == 0,
            forall|a: int| 0 <= a < backward@.len() ==> (#[trigger] backward@[a])@.len() == 0,
            forall|a: int| 0 <= a < cuts@.len() ==> (#[trigger] cuts@[a])@.len() == 0,
        decreases n - forward@.len(),
    {
        forward.push(Vec::new());
        backward.push(Vec::new());
        cuts.push(Vec::new());
    }
    let ghost firsts = |out: (usize, bool)| out.0;
    let ghost seconds = |out: (usize, bool)| out.1;
    let mut at: usize = 0;
    proof {
        assert forall|a: int| 0 <= a < n implies (#[trigger] forward@[a])@ == outs(
            *graph,
            order@,
            a,
            0,
        ).map_values(firsts) by {
            assert(forward@[a]@ =~= outs(*graph, order@, a, 0).map_values(firsts));
        }
        assert forall|a: int| 0 <= a < n implies (#[trigger] cuts@[a])@ == outs(
            *graph,
            order@,
            a,
            0,
        ).map_values(seconds) by {
            assert(cuts@[a]@ =~= outs(*graph, order@, a, 0).map_values(seconds));
        }
        assert forall|b: int| 0 <= b < n implies (#[trigger] backward@[b])@ == ins(
            *graph,
            order@,
            b,
            0,
        ) by {
            assert(backward@[b]@ =~= ins(*graph, order@, b, 0));
        }
    }
    while at < graph.links.len()
        invariant
            at <= graph.links@.len(),
            n == order@.len(),
            forward@.len() == backward@.len() == cuts@.len() == n,
            firsts == (|out: (usize, bool)| out.0),
            seconds == (|out: (usize, bool)| out.1),
            forall|a: int|
                0 <= a < n ==> (#[trigger] forward@[a])@ == outs(
                    *graph,
                    order@,
                    a,
                    at as nat,
                ).map_values(firsts),
            forall|a: int|
                0 <= a < n ==> (#[trigger] cuts@[a])@ == outs(
                    *graph,
                    order@,
                    a,
                    at as nat,
                ).map_values(seconds),
            forall|b: int|
                0 <= b < n ==> (#[trigger] backward@[b])@ == ins(*graph, order@, b, at as nat),
        decreases graph.links@.len() - at,
    {
        let link: Link = graph.links[at];
        let from: Option<usize> = position(order, link.from);
        let to: Option<usize> = position(order, link.to);
        let ghost old_forward = forward@;
        let ghost old_backward = backward@;
        let ghost old_cuts = cuts@;
        if let Some(from) = from {
            if let Some(to) = to {
                let cut: bool = rate_cut(graph, link);
                forward[from].push(to);
                cuts[from].push(cut);
                backward[to].push(from);
                proof {
                    assert(ends_of(order@, link) == Some((from as int, to as int)));
                    let out = outs(*graph, order@, from as int, at as nat);
                    assert(forward@[from as int]@ =~= out.push((to, cut)).map_values(firsts));
                    assert(cuts@[from as int]@ =~= out.push((to, cut)).map_values(seconds));
                }
            }
        }
        proof {
            assert forall|a: int| 0 <= a < n implies (#[trigger] forward@[a])@ == outs(
                *graph,
                order@,
                a,
                (at + 1) as nat,
            ).map_values(firsts) by {
                assert(old_forward[a]@ == outs(*graph, order@, a, at as nat).map_values(firsts));
            }
            assert forall|a: int| 0 <= a < n implies (#[trigger] cuts@[a])@ == outs(
                *graph,
                order@,
                a,
                (at + 1) as nat,
            ).map_values(seconds) by {
                assert(old_cuts[a]@ == outs(*graph, order@, a, at as nat).map_values(seconds));
            }
            assert forall|b: int| 0 <= b < n implies (#[trigger] backward@[b])@ == ins(
                *graph,
                order@,
                b,
                (at + 1) as nat,
            ) by {
                assert(old_backward[b]@ == ins(*graph, order@, b, at as nat));
            }
        }
        at += 1;
    }
    proof {
        assert(lists(forward@) =~= forward_of(*graph, order@));
        assert(lists(backward@) =~= backward_of(*graph, order@));
        assert(lists(cuts@) =~= cuts_of(*graph, order@));
        lemma_edges(*graph, order@);
    }

    let looped: Vec<bool> = looped(
        graph,
        order,
        lines,
        forward.as_slice(),
        backward.as_slice(),
    );
    assert(looped@ =~= looped_of(*graph, order@, lines@));
    let places: Vec<Place> = places(looped.as_slice(), backward.as_slice(), n);
    let levels: Vec<u16> = levels(looped.as_slice(), forward.as_slice(), cuts.as_slice(), n);

    // One stage per distinct key, in the order they run.
    let mut keys: Vec<u32> = Vec::new();
    let mut distinct: Vec<u32> = Vec::new();
    let mut i: usize = 0;
    while i < n
        invariant
            i <= n == order@.len(),
            places@.len() == n,
            levels@.len() == n,
            forall|j: int|
                0 <= j < n ==> 3 * #[trigger] levels@[j] + rank(places@[j]) == stage_key(
                    *graph,
                    order@,
                    lines@,
                    j,
                ),
            keys@.len() == i,
            forall|j: int|
                0 <= j < i ==> #[trigger] keys@[j] == stage_key(*graph, order@, lines@, j),
            forall|a: int, b: int|
                0 <= a < b < distinct@.len() ==> #[trigger] distinct@[a] < #[trigger] distinct@[b],
            forall|s: int|
                0 <= s < distinct@.len() ==> exists|j: int|
                    0 <= j < i && stage_key(*graph, order@, lines@, j) == #[trigger] distinct@[s],
            forall|j: int| 0 <= j < i ==> distinct@.contains(#[trigger] keys@[j]),
        decreases n - i,
    {
        let place: u32 = match places[i] {
            Place::Before => 0,
            Place::Looped => 1,
            Place::After => 2,
        };
        assert(3 * levels@[i as int] + rank(places@[i as int]) == stage_key(
            *graph,
            order@,
            lines@,
            i as int,
        ));
        let key: u32 = 3 * (levels[i] as u32) + place;
        let ghost old_keys = keys@;
        let ghost old_distinct = distinct@;
        keys.push(key);
        insert_key(&mut distinct, key);
        proof {
            assert(stage_key(*graph, order@, lines@, i as int) == key);
            assert forall|s: int| 0 <= s < distinct@.len() implies exists|j: int|
                0 <= j < i + 1 && stage_key(*graph, order@, lines@, j)
                    == #[trigger] distinct@[s] by {
                assert(distinct@.contains(distinct@[s]));
                if distinct@[s] != key {
                    let t = choose|t: int|
                        0 <= t < old_distinct.len() && old_distinct[t] == distinct@[s];
                    let j = choose|j: int|
                        0 <= j < i && stage_key(*graph, order@, lines@, j)
                            == #[trigger] old_distinct[t];
                    assert(stage_key(*graph, order@, lines@, j) == distinct@[s]);
                }
            }
            assert forall|j: int| 0 <= j < i + 1 implies distinct@.contains(
                #[trigger] keys@[j],
            ) by {
                if j < i {
                    assert(keys@[j] == old_keys[j]);
                    assert(old_distinct.contains(old_keys[j]));
                }
            }
        }
        i += 1;
    }

    let mut stages: Vec<Chunking> = Vec::new();
    let mut s: usize = 0;
    while s < distinct.len()
        invariant
            s <= distinct@.len(),
            stages@.len() == s,
            forall|t: int|
                0 <= t < s ==> #[trigger] stages@[t] == chunking_of(distinct@[t] as int),
        decreases distinct@.len() - s,
    {
        stages.push(
            if distinct[s] % 3 == 1 {
                Chunking::SubBlock
            } else {
                Chunking::WholeBlock
            },
        );
        s += 1;
    }
    let mut of: Vec<usize> = Vec::new();
    i = 0;
    while i < n
        invariant
            i <= n == keys@.len(),
            of@.len() == i,
            forall|j: int| 0 <= j < n ==> distinct@.contains(#[trigger] keys@[j]),
            forall|j: int|
                0 <= j < i ==> (#[trigger] of@[j]) < distinct@.len() && distinct@[of@[j] as int]
                    == keys@[j],
        decreases n - i,
    {
        let key: u32 = keys[i];
        let mut at: usize = 0;
        assert(distinct@.contains(keys@[i as int]));
        while at < distinct.len() && distinct[at] != key
            invariant
                exists|t: int| at <= t < distinct@.len() && distinct@[t] == key,
            decreases distinct@.len() - at,
        {
            at += 1;
        }
        of.push(at);
        i += 1;
    }
    let plan: Plan = Plan { stages, of };
    proof {
        let listed = Seq::new(distinct@.len(), |t: int| distinct@[t] as int);
        assert forall|s: int| 0 <= s < listed.len() implies is_key(
            *graph,
            order@,
            lines@,
            #[trigger] listed[s],
        ) by {
            let j = choose|j: int|
                0 <= j < n && stage_key(*graph, order@, lines@, j) == #[trigger] distinct@[s];
            assert(stage_key(*graph, order@, lines@, j) == listed[s]);
        }
        assert forall|j: int| 0 <= j < order@.len() implies (#[trigger] plan.of@[j]) < listed.len()
            && listed[plan.of@[j] as int] == stage_key(*graph, order@, lines@, j) by {
            assert(keys@[j] == stage_key(*graph, order@, lines@, j));
        }
        assert(ascending(listed));
        assert(is_plan(plan.stages@, plan.of@, listed, *graph, order@, lines@));
    }
    plan
}

/// Puts a key into an ascending list, unless it is there already.
fn insert_key(list: &mut Vec<u32>, key: u32)
    requires
        forall|a: int, b: int|
            0 <= a < b < old(list)@.len() ==> #[trigger] old(list)@[a] < #[trigger] old(list)@[b],
    ensures
        forall|a: int, b: int|
            0 <= a < b < final(list)@.len() ==> #[trigger] final(list)@[a]
                < #[trigger] final(list)@[b],
        forall|k: u32|
            #[trigger] final(list)@.contains(k) <==> old(list)@.contains(k) || k == key,
{
    let ghost before = list@;
    let mut at: usize = 0;
    while at < list.len() && list[at] < key
        invariant
            at <= list@.len(),
            list@ == before,
            forall|i: int| 0 <= i < at ==> #[trigger] list@[i] < key,
        decreases list@.len() - at,
    {
        at += 1;
    }
    if at < list.len() && list[at] == key {
        assert(before[at as int] == key);
        return;
    }
    list.insert(at, key);
    proof {
        assert forall|k: u32| #[trigger] list@.contains(k) <==> before.contains(k) || k == key by {
            if list@.contains(k) {
                let i = choose|i: int| 0 <= i < list@.len() && list@[i] == k;
                if i < at {
                    assert(before[i] == k);
                } else if i > at {
                    assert(before[i - 1] == k);
                }
            }
            if before.contains(k) {
                let i = choose|i: int| 0 <= i < before.len() && before[i] == k;
                if i < at {
                    assert(list@[i] == k);
                } else {
                    assert(list@[i + 1] == k);
                }
            }
            assert(list@[at as int] == key);
        }
    }
}

/// Every edge leads forwards in the order.
pub open spec fn edges_ahead(forward: Seq<Seq<usize>>) -> bool {
    forall|a: int, k: int|
        0 <= a < forward.len() && 0 <= k < forward[a].len() ==> #[trigger] forward[a][k] > a
}

/// Whether none of the levels lies above its bound.
pub open spec fn below(levels: Seq<u16>, bound: Seq<u16>) -> bool {
    &&& levels.len() == bound.len()
    &&& forall|i: int| 0 <= i < levels.len() ==> #[trigger] levels[i] <= bound[i]
}

/// The edges out of the first `count` nodes lead no lower.
pub open spec fn satisfied(
    levels: Seq<u16>,
    forward: Seq<Seq<usize>>,
    cuts: Seq<Seq<bool>>,
    count: int,
) -> bool {
    forall|a: int, k: int|
        0 <= a < count && 0 <= k < forward[a].len() ==> levels[#[trigger] forward[a][k] as int]
            >= raised(levels[a], cuts[a][k])
}

/// Everything on a loop shares one level.
pub open spec fn loops_level(levels: Seq<u16>, looped: Seq<bool>) -> bool {
    forall|i: int, j: int|
        0 <= i < levels.len() && 0 <= j < levels.len() && looped[i] && looped[j]
            ==> #[trigger] levels[i] == #[trigger] levels[j]
}

/// Levels that no edge leads down from, that rise by one at each change of rate,
/// and that are common to the loops.
pub open spec fn is_levelling(
    levels: Seq<u16>,
    looped: Seq<bool>,
    forward: Seq<Seq<usize>>,
    cuts: Seq<Seq<bool>>,
    n: nat,
) -> bool {
    &&& levels.len() == n
    &&& satisfied(levels, forward, cuts, n as int)
    &&& loops_level(levels, looped)
}

spec fn edges_paired(forward: Seq<Seq<usize>>, cuts: Seq<Seq<bool>>, n: nat) -> bool {
    &&& edges_within(forward, n)
    &&& cuts.len() == n
    &&& forall|a: int| 0 <= a < n ==> (#[trigger] cuts[a]).len() == forward[a].len()
}

proof fn lemma_relax_node(
    levels: Seq<u16>,
    from: int,
    forward: Seq<usize>,
    cuts: Seq<bool>,
    count: nat,
)
    requires
        0 <= from < levels.len(),
        count <= forward.len() == cuts.len(),
        forall|k: int| 0 <= k < forward.len() ==> from < #[trigger] forward[k] < levels.len(),
    ensures
        ({
            let after = relax_node(levels, from, forward, cuts, count);
            &&& after.len() == levels.len()
            &&& below(levels, after)
            &&& forall|i: int| 0 <= i <= from ==> #[trigger] after[i] == levels[i]
            &&& forall|k: int|
                0 <= k < count ==> after[#[trigger] forward[k] as int] >= raised(
                    levels[from],
                    cuts[k],
                )
        }),
    decreases count,
{
    if count > 0 {
        lemma_relax_node(levels, from, forward, cuts, (count - 1) as nat);
        let before = relax_node(levels, from, forward, cuts, (count - 1) as nat);
        let after = relax_node(levels, from, forward, cuts, count);
        assert(from < forward[count - 1] < levels.len());
        assert forall|k: int| 0 <= k < count implies after[#[trigger] forward[k] as int] >= raised(
            levels[from],
            cuts[k],
        ) by {
            if k < count - 1 {
                assert(before[forward[k] as int] >= raised(levels[from], cuts[k]));
            }
        }
    }
}

proof fn lemma_relax_nodes(
    levels: Seq<u16>,
    forward: Seq<Seq<usize>>,
    cuts: Seq<Seq<bool>>,
    count: nat,
)
    requires
        count <= levels.len(),
        edges_paired(forward, cuts, levels.len()),
        edges_ahead(forward),
    ensures
        ({
            let after = relax_nodes(levels, forward, cuts, count);
            &&& below(levels, after)
            &&& satisfied(after, forward, cuts, count as int)
        }),
    decreases count,
{
    if count > 0 {
        let from = count - 1;
        lemma_relax_nodes(levels, forward, cuts, from as nat);
        let before = relax_nodes(levels, forward, cuts, from as nat);
        assert(cuts[from].len() == forward[from].len());
        assert forall|k: int| 0 <= k < forward[from].len() implies from < #[trigger] forward[from][k]
            < before.len() by {}
        lemma_relax_node(before, from, forward[from], cuts[from], forward[from].len());
        let after = relax_nodes(levels, forward, cuts, count);
        assert forall|i: int| 0 <= i < levels.len() implies #[trigger] levels[i] <= after[i] by {
            assert(levels[i] <= before[i]);
            assert(before[i] <= after[i]);
        }
        assert forall|a: int, k: int|
            0 <= a < count && 0 <= k < forward[a].len() implies after[#[trigger] forward[a][k] as int]
            >= raised(after[a], cuts[a][k]) by {
            assert(after[a] == before[a]);
            if a < from {
                assert(before[forward[a][k] as int] >= raised(before[a], cuts[a][k]));
                assert(before[forward[a][k] as int] <= after[forward[a][k] as int]);
            }
        }
    }
}

proof fn lemma_relax_node_below(
    levels: Seq<u16>,
    bound: Seq<u16>,
    from: int,
    forward: Seq<usize>,
    cuts: Seq<bool>,
    count: nat,
)
    requires
        0 <= from < levels.len(),
        count <= forward.len() == cuts.len(),
        forall|k: int| 0 <= k < forward.len() ==> from < #[trigger] forward[k] < levels.len(),
        below(levels, bound),
        forall|k: int|
            0 <= k < forward.len() ==> bound[#[trigger] forward[k] as int] >= raised(
                bound[from],
                cuts[k],
            ),
    ensures
        below(relax_node(levels, from, forward, cuts, count), bound),
    decreases count,
{
    if count > 0 {
        lemma_relax_node_below(levels, bound, from, forward, cuts, (count - 1) as nat);
        assert(bound[forward[count - 1] as int] >= raised(bound[from], cuts[count - 1]));
        let before = relax_node(levels, from, forward, cuts, (count - 1) as nat);
        assert(before[from] <= bound[from]);
    }
}

/// Relaxing never goes beyond a set of levels that satisfies every edge.
proof fn lemma_relax_below(
    levels: Seq<u16>,
    bound: Seq<u16>,
    forward: Seq<Seq<usize>>,
    cuts: Seq<Seq<bool>>,
    count: nat,
)
    requires
        count <= levels.len(),
        edges_paired(forward, cuts, levels.len()),
        edges_ahead(forward),
        below(levels, bound),
        satisfied(bound, forward, cuts, bound.len() as int),
    ensures
        below(relax_nodes(levels, forward, cuts, count), bound),
    decreases count,
{
    if count > 0 {
        let from = count - 1;
        lemma_relax_below(levels, bound, forward, cuts, from as nat);
        let before = relax_nodes(levels, forward, cuts, from as nat);
        assert(cuts[from].len() == forward[from].len());
        assert forall|k: int| 0 <= k < forward[from].len() implies from < #[trigger] forward[from][k]
            < before.len() && bound[forward[from][k] as int] >= raised(
            bound[from],
            cuts[from][k],
        ) by {}
        lemma_relax_node_below(
            before,
            bound,
            from,
            forward[from],
            cuts[from],
            forward[from].len(),
        );
    }
}

proof fn lemma_highest(levels: Seq<u16>, looped: Seq<bool>, count: nat)
    requires
        count <= levels.len() == looped.len(),
    ensures
        forall|i: int|
            0 <= i < count && looped[i] ==> #[trigger] levels[i] <= highest_looped(
                levels,
                looped,
                count,
            ),
        highest_looped(levels, looped, count) == 0 || exists|i: int|
            0 <= i < count && looped[i] && #[trigger] levels[i] == highest_looped(
                levels,
                looped,
                count,
            ),
    decreases count,
{
    if count > 0 {
        lemma_highest(levels, looped, (count - 1) as nat);
    }
}

/// A change of rate never lies within a loop.
pub open spec fn smooth_loops(
    looped: Seq<bool>,
    forward: Seq<Seq<usize>>,
    cuts: Seq<Seq<bool>>,
) -> bool {
    forall|a: int, k: int|
        0 <= a < forward.len() && 0 <= k < forward[a].len() && looped[a]
            && looped[#[trigger] forward[a][k] as int] ==> !cuts[a][k]
}

/// What leaves a loop does not come back to it.
spec fn loops_whole(looped: Seq<bool>, forward: Seq<Seq<usize>>) -> bool {
    forall|a: int, k: int|
        0 <= a < forward.len() && 0 <= k < forward[a].len()
            && looped[#[trigger] forward[a][k] as int] && !looped[a] ==> !reachable(
            marked(looped),
            forward,
            a,
        )
}

proof fn lemma_levels_settle(
    looped: Seq<bool>,
    forward: Seq<Seq<usize>>,
    cuts: Seq<Seq<bool>>,
    n: nat,
)
    requires
        n > 0,
        looped.len() == n,
        edges_paired(forward, cuts, n),
        edges_ahead(forward),
        smooth_loops(looped, forward, cuts),
        loops_whole(looped, forward),
    ensures
        satisfied(levels_of(looped, forward, cuts, n), forward, cuts, n as int),
        levels_of(looped, forward, cuts, n).len() == n,
{
    let zeros = Seq::new(n, |i: int| 0u16);
    let first = relax_nodes(zeros, forward, cuts, n);
    lemma_relax_nodes(zeros, forward, cuts, n);
    let one = collapsed(first, looped);
    let inside = highest_looped(first, looped, n);
    lemma_highest(first, looped, n);
    let bound = Seq::new(
        n,
        |i: int|
            if looped[i] {
                inside
            } else if reachable(marked(looped), forward, i) {
                u16::MAX
            } else {
                first[i]
            },
    );
    assert forall|a: int, k: int|
        0 <= a < n && 0 <= k < forward[a].len() implies bound[#[trigger] forward[a][k] as int]
        >= raised(bound[a], cuts[a][k]) by {
        let b = forward[a][k] as int;
        assert(first[b] >= raised(first[a], cuts[a][k]));
        assert(leads(forward, a, b));
        if looped[a] {
            assert(reached(marked(looped), forward, a, 0));
        }
        if reachable(marked(looped), forward, a) {
            lemma_reach_on(marked(looped), forward, a, b);
        }
    }
    assert(below(one, bound)) by {
        assert forall|i: int| 0 <= i < n implies #[trigger] one[i] <= bound[i] by {
            let _ = first[i];
        }
    }
    let second = relax_nodes(one, forward, cuts, n);
    lemma_relax_nodes(one, forward, cuts, n);
    lemma_relax_below(one, bound, forward, cuts, n);
    assert forall|i: int| 0 <= i < n && looped[i] implies #[trigger] second[i] == inside by {
        assert(one[i] <= second[i]);
        assert(second[i] <= bound[i]);
        assert(first[i] <= inside);
    }
    lemma_highest(second, looped, n);
    assert(collapsed(second, looped) =~= second) by {
        let top = highest_looped(second, looped, n);
        assert forall|i: int| 0 <= i < n && looped[i] implies #[trigger] second[i] >= top by {
            if top > 0 {
                let j = choose|j: int| 0 <= j < n && looped[j] && #[trigger] second[j] == top;
            }
        }
    }
    lemma_relax_below(second, second, forward, cuts, n);
    lemma_relax_nodes(second, forward, cuts, n);
    assert(relax_nodes(second, forward, cuts, n) =~= second) by {
        let third = relax_nodes(second, forward, cuts, n);
        assert forall|i: int| 0 <= i < n implies third[i] == second[i] by {
            assert(second[i] <= third[i]);
            assert(third[i] <= second[i]);
        }
    }
    reveal_with_fuel(level_rounds, 3);
    assert(level_rounds(zeros, looped, forward, cuts, 2) == second);
    lemma_settled(second, looped, forward, cuts, zeros, 2, n + 1);
}

proof fn lemma_reach_on(from: Set<int>, edges: Seq<Seq<usize>>, a: int, b: int)
    requires
        0 <= a < edges.len(),
        reachable(from, edges, a),
        leads(edges, a, b),
    ensures
        reachable(from, edges, b),
{
    let steps = choose|steps: nat| reached(from, edges, a, steps);
    assert(reached(from, edges, b, steps + 1));
}

/// What is reached from places that are themselves reached is reached.
proof fn lemma_reach_through(
    from: Set<int>,
    through: Set<int>,
    edges: Seq<Seq<usize>>,
    node: int,
    steps: nat,
)
    requires
        forall|i: int| #[trigger] through.contains(i) ==> reachable(from, edges, i),
        reached(through, edges, node, steps),
    ensures
        reachable(from, edges, node),
    decreases steps,
{
    if steps > 0 {
        if reached(through, edges, node, (steps - 1) as nat) {
            lemma_reach_through(from, through, edges, node, (steps - 1) as nat);
        } else {
            let a = choose|a: int|
                0 <= a < edges.len() && #[trigger] leads(edges, a, node) && reached(
                    through,
                    edges,
                    a,
                    (steps - 1) as nat,
                );
            lemma_reach_through(from, through, edges, a, (steps - 1) as nat);
            lemma_reach_on(from, edges, a, node);
        }
    }
}

/// Every link between nodes that run leads forwards in the order.
pub open spec fn is_topological(graph: Graph, order: Seq<NodeId>) -> bool {
    forall|l: int|
        0 <= l < graph.links@.len() ==> (ends_of(order, #[trigger] graph.links@[l]) matches Some(
            (a, b),
        ) ==> a < b)
}

/// No link between two nodes of a loop changes rate.
pub open spec fn no_cut_on_loops(graph: Graph, order: Seq<NodeId>, lines: Seq<Line>) -> bool {
    forall|l: int|
        0 <= l < graph.links@.len() ==> (ends_of(order, #[trigger] graph.links@[l]) matches Some(
            (a, b),
        ) ==> looped_of(graph, order, lines)[a] && looped_of(graph, order, lines)[b]
            ==> !crosses_rate(graph, graph.links@[l]))
}

/// What lies between two nodes of a loop lies on it.
proof fn lemma_between_is_looped(
    graph: Graph,
    order: Seq<NodeId>,
    lines: Seq<Line>,
    x: int,
    y: int,
)
    requires
        order.len() < usize::MAX,
        0 <= x < order.len(),
        0 <= y < order.len(),
        linked(graph, order, x, y),
        reachable(marked(looped_of(graph, order, lines)), forward_of(graph, order), x),
        reachable(loop_ends(graph, order, lines), backward_of(graph, order), y),
    ensures
        looped_of(graph, order, lines)[x],
{
    let fwd = forward_of(graph, order);
    let bwd = backward_of(graph, order);
    let lp = looped_of(graph, order, lines);
    let ends = loop_ends(graph, order, lines);
    let steps = choose|steps: nat| reached(marked(lp), fwd, x, steps);
    assert forall|i: int| #[trigger] marked(lp).contains(i) implies reachable(ends, fwd, i) by {}
    lemma_reach_through(ends, marked(lp), fwd, x, steps);
    lemma_backward(graph, order, x, y);
    lemma_reach_on(ends, bwd, y, x);
}

proof fn lemma_forward_edge(graph: Graph, order: Seq<NodeId>, lines: Seq<Line>, x: int, k: int)
    requires
        order.len() < usize::MAX,
        is_topological(graph, order),
        0 <= x < order.len(),
        0 <= k < forward_of(graph, order)[x].len(),
    ensures
        ({
            let y = forward_of(graph, order)[x][k] as int;
            let lp = looped_of(graph, order, lines);
            &&& y > x
            &&& y < order.len()
            &&& linked(graph, order, x, y)
            &&& no_cut_on_loops(graph, order, lines) && lp[x] && lp[y] ==> !cuts_of(
                graph,
                order,
            )[x][k]
        }),
{
    let out = outs(graph, order, x, graph.links@.len());
    lemma_outs(graph, order, x, graph.links@.len());
    assert(out[k].0 == forward_of(graph, order)[x][k]);
    assert(out[k].1 == cuts_of(graph, order)[x][k]);
    let m = choose|m: int|
        0 <= m < graph.links@.len() && ends_of(order, #[trigger] graph.links@[m]) == Some(
            (x, out[k].0 as int),
        ) && crosses_rate(graph, graph.links@[m]) == out[k].1;
    assert(ends_of(order, graph.links@[m]) == Some((x, out[k].0 as int)));
}

proof fn lemma_graph_levels(graph: Graph, order: Seq<NodeId>, lines: Seq<Line>)
    requires
        0 < order.len() < usize::MAX,
        is_topological(graph, order),
        no_cut_on_loops(graph, order, lines),
    ensures
        satisfied(
            levels_of(
                looped_of(graph, order, lines),
                forward_of(graph, order),
                cuts_of(graph, order),
                order.len(),
            ),
            forward_of(graph, order),
            cuts_of(graph, order),
            order.len() as int,
        ),
{
    let n = order.len();
    let fwd = forward_of(graph, order);
    let cuts = cuts_of(graph, order);
    let lp = looped_of(graph, order, lines);
    lemma_edges(graph, order);
    assert forall|x: int, k: int| 0 <= x < n && 0 <= k < fwd[x].len() implies (
    #[trigger] fwd[x][k]) > x && (lp[x] && lp[fwd[x][k] as int] ==> !cuts[x][k]) by {
        lemma_forward_edge(graph, order, lines, x, k);
    }
    assert forall|x: int, k: int|
        0 <= x < fwd.len() && 0 <= k < fwd[x].len() && lp[#[trigger] fwd[x][k] as int]
            && !lp[x] implies !reachable(marked(lp), fwd, x) by {
        lemma_forward_edge(graph, order, lines, x, k);
        if reachable(marked(lp), fwd, x) {
            lemma_between_is_looped(graph, order, lines, x, fwd[x][k] as int);
        }
    }
    assert forall|x: int| 0 <= x < n implies (#[trigger] cuts[x]).len() == fwd[x].len() by {}
    lemma_levels_settle(lp, fwd, cuts, n);
}

/// After every round the loops are level, and nothing lies above levels that will
/// do.
proof fn lemma_rounds(
    looped: Seq<bool>,
    forward: Seq<Seq<usize>>,
    cuts: Seq<Seq<bool>>,
    n: nat,
    bound: Seq<u16>,
    count: nat,
)
    requires
        looped.len() == n,
        edges_paired(forward, cuts, n),
        edges_ahead(forward),
    ensures
        ({
            let levels = level_rounds(Seq::new(n, |i: int| 0u16), looped, forward, cuts, count);
            &&& levels.len() == n
            &&& loops_level(levels, looped)
            &&& is_levelling(bound, looped, forward, cuts, n) ==> below(levels, bound)
        }),
    decreases count,
{
    if count > 0 {
        lemma_rounds(looped, forward, cuts, n, bound, (count - 1) as nat);
        let before = level_rounds(
            Seq::new(n, |i: int| 0u16),
            looped,
            forward,
            cuts,
            (count - 1) as nat,
        );
        lemma_relax_nodes(before, forward, cuts, n);
        let relaxed = relax_nodes(before, forward, cuts, n);
        let after = collapsed(relaxed, looped);
        let inside = highest_looped(relaxed, looped, n);
        lemma_highest(relaxed, looped, n);
        assert forall|i: int| 0 <= i < n && looped[i] implies #[trigger] after[i] == inside by {
            assert(relaxed[i] <= inside);
        }
        if is_levelling(bound, looped, forward, cuts, n) {
            lemma_relax_below(before, bound, forward, cuts, n);
            assert forall|i: int| 0 <= i < n implies #[trigger] after[i] <= bound[i] by {
                assert(relaxed[i] <= bound[i]);
                if looped[i] && inside > 0 {
                    let j = choose|j: int|
                        0 <= j < n && looped[j] && #[trigger] relaxed[j] == inside;
                    assert(relaxed[j] <= bound[j]);
                    assert(bound[i] == bound[j]);
                }
            }
        }
    }
}

/// The levels are the least that will do: common to the loops, and below any others
/// that no link leads down from, that rise by one at each change of rate and that
/// are common to the loops. They are such levels themselves as long as no rate
/// changes within a loop.
pub proof fn law_levels_are_the_least(
    graph: Graph,
    order: Seq<NodeId>,
    lines: Seq<Line>,
    others: Seq<u16>,
)
    requires
        order.len() < usize::MAX,
        is_topological(graph, order),
    ensures
        ({
            let looped = looped_of(graph, order, lines);
            let forward = forward_of(graph, order);
            let cuts = cuts_of(graph, order);
            let levels = levels_of(looped, forward, cuts, order.len());
            &&& levels.len() == order.len()
            &&& loops_level(levels, looped)
            &&& is_levelling(others, looped, forward, cuts, order.len()) ==> below(levels, others)
            &&& no_cut_on_loops(graph, order, lines) ==> is_levelling(
                levels,
                looped,
                forward,
                cuts,
                order.len(),
            )
        }),
{
    let n = order.len();
    let fwd = forward_of(graph, order);
    let cuts = cuts_of(graph, order);
    let lp = looped_of(graph, order, lines);
    lemma_edges(graph, order);
    assert forall|x: int, k: int| 0 <= x < n && 0 <= k < fwd[x].len() implies (
    #[trigger] fwd[x][k]) > x by {
        lemma_forward_edge(graph, order, lines, x, k);
    }
    assert forall|x: int| 0 <= x < n implies (#[trigger] cuts[x]).len() == fwd[x].len() by {}
    lemma_rounds(lp, fwd, cuts, n, others, n + 1);
    if n > 0 && no_cut_on_loops(graph, order, lines) {
        lemma_graph_levels(graph, order, lines);
    }
}

/// Along a link, what lies before the loops comes first, and what lies after
/// them last.
proof fn lemma_graph_places(graph: Graph, order: Seq<NodeId>, lines: Seq<Line>, a: int, b: int)
    requires
        order.len() < usize::MAX,
        0 <= a < order.len(),
        0 <= b < order.len(),
        linked(graph, order, a, b),
    ensures
        rank(place_of(looped_of(graph, order, lines), backward_of(graph, order), a)) <= rank(
            place_of(looped_of(graph, order, lines), backward_of(graph, order), b),
        ),
{
    let fwd = forward_of(graph, order);
    let bwd = backward_of(graph, order);
    let lp = looped_of(graph, order, lines);
    let ends = loop_ends(graph, order, lines);
    lemma_backward(graph, order, a, b);
    lemma_forward(graph, order, a, b);
    assert forall|i: int| #[trigger] marked(lp).contains(i) implies reachable(ends, bwd, i) by {}
    if lp[a] {
        assert(lp.contains(true));
        if !lp[b] && reachable(marked(lp), bwd, b) {
            let steps = choose|steps: nat| reached(marked(lp), bwd, b, steps);
            lemma_reach_through(ends, marked(lp), bwd, b, steps);
            lemma_reach_on(ends, fwd, a, b);
        }
    } else if lp[b] {
        assert(reached(marked(lp), bwd, b, 0));
        lemma_reach_on(marked(lp), bwd, b, a);
    } else if reachable(marked(lp), bwd, b) {
        lemma_reach_on(marked(lp), bwd, b, a);
    }
}

/// Every link leads from a stage to the same stage or a later one, and a link
/// that changes rate leads to a later one: what reads a level off audio runs
/// after the stage that made that audio.
pub proof fn law_links_lead_to_later_stages(
    graph: Graph,
    order: Seq<NodeId>,
    lines: Seq<Line>,
    stages: Seq<Chunking>,
    of: Seq<usize>,
    keys: Seq<int>,
    link: Link,
)
    requires
        order.len() < usize::MAX,
        is_plan(stages, of, keys, graph, order, lines),
        is_topological(graph, order),
        no_cut_on_loops(graph, order, lines),
        graph.links@.contains(link),
        ends_of(order, link) is Some,
    ensures
        ({
            let (a, b) = ends_of(order, link)->0;
            &&& of[a] <= of[b]
            &&& crosses_rate(graph, link) && level_of(graph, order, lines, a) < u16::MAX ==> of[a]
                < of[b]
        }),
{
    let (a, b) = ends_of(order, link)->0;
    let fwd = forward_of(graph, order);
    let cuts = cuts_of(graph, order);
    let l = choose|l: int| 0 <= l < graph.links@.len() && graph.links@[l] == link;
    lemma_index_from(order, link.from, 0);
    lemma_index_from(order, link.to, 0);
    assert(ends_of(order, graph.links@[l]) == Some((a, b)));
    lemma_graph_levels(graph, order, lines);
    lemma_graph_places(graph, order, lines, a, b);
    let out = outs(graph, order, a, graph.links@.len());
    assert(goes_from(order, graph.links@[l], a) && (exists|k: int|
        0 <= k < out.len() && (#[trigger] out[k]) == (b as usize, crosses_rate(graph, link)))) by {
        lemma_outs(graph, order, a, graph.links@.len());
    }
    let k = choose|k: int|
        0 <= k < out.len() && (#[trigger] out[k]) == (b as usize, crosses_rate(graph, link));
    assert(fwd[a][k] == b);
    assert(cuts[a][k] == crosses_rate(graph, link));
    assert(level_of(graph, order, lines, fwd[a][k] as int) >= raised(
        level_of(graph, order, lines, a),
        cuts[a][k],
    ));
    let ka = stage_key(graph, order, lines, a);
    let kb = stage_key(graph, order, lines, b);
    assert(keys[of[a] as int] == ka && keys[of[b] as int] == kb);
    if of[a] > of[b] {
        assert(keys[of[b] as int] < keys[of[a] as int]);
    }
}

} // verus!
