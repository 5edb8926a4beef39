//! Carrying delay rings across a change of program.
use vstd::arithmetic::div_mod::lemma_fundamental_div_mod_converse;
use vstd::prelude::*;
use crate::ir::{MAX_CHANNELS, NO_NODE};
use crate::number::Sample;
use crate::tables::{swap_two, swapped};

verus! {

/// No slot holds this line.
pub const NOT_PRESENT: usize = usize::MAX;

/// The sample that lies `keep - i` before the head of a ring.
pub open spec fn recent(head: int, len: int, keep: int, i: int) -> int {
    (head + len - keep + i) % len
}

/// How many samples of a ring another one can take.
pub open spec fn kept_of(from_len: nat, to_len: nat) -> nat {
    if from_len < to_len {
        from_len
    } else {
        to_len
    }
}

/// What stands at `k` in a ring after the most recent samples of another have
/// been laid down at the start of each of its channels.
pub open spec fn recopied(
    from: Seq<Sample>,
    from_len: nat,
    to: Seq<Sample>,
    to_len: nat,
    head: nat,
    k: int,
) -> Sample {
    let keep = kept_of(from_len, to_len);
    let ch = k / to_len as int;
    let i = k % to_len as int;
    let source = ch * from_len + recent(head as int, from_len as int, keep as int, i);
    if ch < MAX_CHANNELS && i < keep && source < from.len() {
        from[source]
    } else {
        to[k]
    }
}

/// Moves a delay line's contents into a ring of another length.
///
/// The samples that matter are the most recent ones, so as many of those are
/// kept as fit, ending where the new head starts. `head` points into the old
/// ring beforehand and into the new one afterwards.
pub fn copy_ring(
    from: &[Sample],
    from_len: usize,
    to: &mut [Sample],
    to_len: usize,
    head: &mut usize,
)
    requires
        *old(head) + from_len <= usize::MAX,
        MAX_CHANNELS * from_len <= usize::MAX,
        MAX_CHANNELS * to_len <= usize::MAX,
    ensures
        final(to)@.len() == old(to)@.len(),
        from_len == 0 || to_len == 0 ==> final(to)@ == old(to)@ && *final(head) == 0,
        from_len > 0 && to_len > 0 ==> *final(head) == kept_of(from_len as nat, to_len as nat)
            % to_len as nat,
        from_len > 0 && to_len > 0 ==> forall|k: int|
            0 <= k < old(to)@.len() ==> #[trigger] final(to)@[k] == recopied(
                from@,
                from_len as nat,
                old(to)@,
                to_len as nat,
                *old(head) as nat,
                k,
            ),
{
    if from_len == 0 || to_len == 0 {
        *head = 0;
        return;
    }
    let keep: usize = if from_len < to_len {
        from_len
    } else {
        to_len
    };
    let at_head: usize = *head;
    let ghost before = to@;
    let mut ch: usize = 0;
    proof {
        assert forall|k: int| 0 <= k < before.len() implies 0 <= #[trigger] (k / to_len as int) by {
            vstd::arithmetic::div_mod::lemma_div_pos_is_pos(k, to_len as int);
        }
    }
    while ch < MAX_CHANNELS
        invariant
            ch <= MAX_CHANNELS,
            from_len > 0,
            to_len > 0,
            keep == kept_of(from_len as nat, to_len as nat),
            at_head == *old(head),
            at_head + from_len <= usize::MAX,
            MAX_CHANNELS * from_len <= usize::MAX,
            MAX_CHANNELS * to_len <= usize::MAX,
            to@.len() == before.len(),
            forall|k: int|
                0 <= k < before.len() ==> #[trigger] to@[k] == if k / (to_len as int) < ch {
                    recopied(
                        from@,
                        from_len as nat,
                        before,
                        to_len as nat,
                        at_head as nat,
                        k,
                    )
                } else {
                    before[k]
                },
        decreases MAX_CHANNELS - ch,
    {
        assert(ch * from_len <= from_len && ch * to_len <= to_len) by (nonlinear_arith)
            requires
                ch <= 1,
        ;
        let src: usize = ch * from_len;
        let dst: usize = ch * to_len;
        let ghost started = to@;
        let mut i: usize = 0;
        while i < keep
            invariant
                i <= keep,
                ch < MAX_CHANNELS,
                from_len > 0,
                to_len > 0,
                keep == kept_of(from_len as nat, to_len as nat),
                at_head + from_len <= usize::MAX,
                src == ch * from_len <= from_len,
                dst == ch * to_len <= to_len,
                MAX_CHANNELS * from_len <= usize::MAX,
                MAX_CHANNELS * to_len <= usize::MAX,
                to@.len() == started.len(),
                forall|k: int|
                    0 <= k < started.len() ==> #[trigger] to@[k] == if dst <= k < dst + i && src
                        + recent(at_head as int, from_len as int, keep as int, k - dst)
                        < from@.len() {
                        from@[src + recent(at_head as int, from_len as int, keep as int, k - dst)]
                    } else {
                        started[k]
                    },
            decreases keep - i,
        {
            let at: usize = (at_head + (from_len - keep)) % from_len;
            let at: usize = at + i;
            let at: usize = if at >= from_len {
                at - from_len
            } else {
                at
            };
            proof {
                let x = at_head + from_len - keep;
                vstd::arithmetic::div_mod::lemma_add_mod_noop(x, i as int, from_len as int);
                if i < from_len {
                    vstd::arithmetic::div_mod::lemma_small_mod(i as nat, from_len as nat);
                }
                let y = x % (from_len as int) + i;
                if y < from_len {
                    vstd::arithmetic::div_mod::lemma_small_mod(y as nat, from_len as nat);
                } else {
                    vstd::arithmetic::div_mod::lemma_mod_sub_multiples_vanish(y, from_len as int);
                    vstd::arithmetic::div_mod::lemma_small_mod(
                        (y - from_len) as nat,
                        from_len as nat,
                    );
                }
                assert(at == recent(at_head as int, from_len as int, keep as int, i as int));
            }
            if src + at < from.len() && dst + i < to.len() {
                to[dst + i] = from[src + at];
            }
            i += 1;
        }
        proof {
            assert forall|k: int| 0 <= k < before.len() implies #[trigger] to@[k] == if k / (
            to_len as int) < ch + 1 {
                recopied(from@, from_len as nat, before, to_len as nat, at_head as nat, k)
            } else {
                before[k]
            } by {
                let _ = started[k];
                if dst <= k < dst + to_len {
                    lemma_fundamental_div_mod_converse(k, to_len as int, ch as int, k - dst);
                } else {
                    vstd::arithmetic::div_mod::lemma_fundamental_div_mod(k, to_len as int);
                    let q = k / to_len as int;
                    let r = k % to_len as int;
                    if q == ch {
                        assert(to_len as int * q == ch * to_len) by (nonlinear_arith)
                            requires
                                q == ch,
                        ;
                    }
                }
            }
        }
        ch += 1;
    }
    *head = keep % to_len;
}

/// The first slot from `at` on that belongs to `node`.
pub open spec fn slot_from(nodes: Seq<u32>, node: u32, at: int) -> usize
    decreases nodes.len() - at,
{
    if at >= nodes.len() {
        NOT_PRESENT
    } else if nodes[at] == node {
        at as usize
    } else {
        slot_from(nodes, node, at + 1)
    }
}

pub open spec fn slot_of(nodes: Seq<u32>, node: u32) -> usize {
    slot_from(nodes, node, 0)
}

proof fn lemma_slot_from(nodes: Seq<u32>, node: u32, at: int)
    requires
        0 <= at <= nodes.len() < usize::MAX,
    ensures
        slot_from(nodes, node, at) != NOT_PRESENT ==> at <= slot_from(nodes, node, at)
            < nodes.len() && nodes[slot_from(nodes, node, at) as int] == node,
        slot_from(nodes, node, at) == NOT_PRESENT ==> forall|i: int|
            at <= i < nodes.len() ==> nodes[i] != node,
    decreases nodes.len() - at,
{
    if at < nodes.len() && nodes[at] != node {
        lemma_slot_from(nodes, node, at + 1);
    }
}

/// Rings being put in order: the rings themselves, and for each line the slot
/// its ring lies in now.
pub struct Settling<T> {
    pub rings: Seq<T>,
    pub order: Seq<usize>,
}

/// Brings the ring of line `i` to slot `i`. A line whose ring lay there follows
/// it to where it went.
pub open spec fn settle_one<T>(s: Settling<T>, i: int, lines: int) -> Settling<T> {
    let from = s.order[i];
    if from == NOT_PRESENT || from == i {
        s
    } else {
        Settling {
            rings: swapped(s.rings, i, from as int),
            order: Seq::new(
                s.order.len(),
                |j: int|
                    if j == i {
                        i as usize
                    } else if i < j < lines && s.order[j] == i {
                        from
                    } else {
                        s.order[j]
                    },
            ),
        }
    }
}

/// The first `count` lines brought to their slots.
pub open spec fn settle<T>(s: Settling<T>, lines: int, count: nat) -> Settling<T>
    decreases count,
{
    if count == 0 {
        s
    } else {
        settle_one(settle(s, lines, (count - 1) as nat), count - 1, lines)
    }
}

/// The slot a line with that writer finds its ring in. A line nobody writes has
/// no ring to find: `NO_NODE` is also what an unused slot carries.
pub open spec fn slot_for(nodes: Seq<u32>, node: u32) -> usize {
    if node == NO_NODE {
        NOT_PRESENT
    } else {
        slot_of(nodes, node)
    }
}

/// Where the rings lie that the new lines ask for.
pub open spec fn asked(
    nodes: Seq<u32>,
    order: Seq<usize>,
    want: Seq<u32>,
    lines: int,
) -> Seq<usize> {
    Seq::new(
        order.len(),
        |i: int|
            if i < lines {
                slot_for(nodes, want[i])
            } else {
                order[i]
            },
    )
}

pub open spec fn lines_of(nodes: Seq<u32>, want: Seq<u32>) -> int {
    if want.len() < nodes.len() {
        want.len() as int
    } else {
        nodes.len() as int
    }
}

/// Brings each line to the slot the new program gave its node, contents intact.
///
/// Whole entries of the table move, so a ring's head and length go with it.
/// The lines whose node had no ring, and those without a node, are marked
/// `NOT_PRESENT` in `order`: what lies in their slot belonged to another line.
pub fn reorder<T>(
    rings: &mut Vec<T>,
    nodes: &mut Vec<u32>,
    order: &mut Vec<usize>,
    want: &[u32],
)
    requires
        old(rings)@.len() == old(nodes)@.len(),
        old(order)@.len() == old(nodes)@.len(),
        old(nodes)@.len() < usize::MAX,
    ensures
        ({
            let lines = lines_of(old(nodes)@, want@);
            let start = Settling {
                rings: old(rings)@,
                order: asked(old(nodes)@, old(order)@, want@, lines),
            };
            let settled = settle(start, lines, lines as nat);
            &&& final(rings)@ == settled.rings
            &&& final(order)@ == settled.order
        }),
        final(nodes)@.len() == old(nodes)@.len(),
        forall|i: int|
            0 <= i < old(nodes)@.len() ==> #[trigger] final(nodes)@[i] == if i < want@.len() {
                want@[i]
            } else {
                NO_NODE
            },
{
    let lines: usize = if want.len() < nodes.len() {
        want.len()
    } else {
        nodes.len()
    };
    let ghost first_order = order@;
    let mut i: usize = 0;
    while i < lines
        invariant
            i <= lines,
            lines == lines_of(nodes@, want@),
            order@.len() == nodes@.len() == first_order.len(),
            nodes@.len() < usize::MAX,
            forall|j: int|
                0 <= j < order@.len() ==> #[trigger] order@[j] == if j < i {
                    slot_for(nodes@, want@[j])
                } else {
                    first_order[j]
                },
        decreases lines - i,
    {
        let mut at: usize = 0;
        while at < nodes.len() && nodes[at] != want[i]
            invariant
                at <= nodes@.len(),
                i < want@.len(),
                slot_of(nodes@, want@[i as int]) == slot_from(nodes@, want@[i as int], at as int),
            decreases nodes@.len() - at,
        {
            at += 1;
        }
        order[i] =
        if want[i] != NO_NODE && at < nodes.len() {
            at
        } else {
            NOT_PRESENT
        };
        i += 1;
    }
    let ghost start = Settling {
        rings: rings@,
        order: asked(nodes@, first_order, want@, lines as int),
    };
    assert(order@ =~= start.order);
    proof {
        assert forall|j: int| 0 <= j < lines implies ((#[trigger] start.order[j]) == NOT_PRESENT
            || start.order[j] < nodes@.len()) by {
            lemma_slot_from(nodes@, want@[j], 0);
        }
    }

    // The surviving rings move before anything is cleared: clearing on the way
    // would wipe a ring that a later line still wants.
    i = 0;
    while i < lines
        invariant
            i <= lines,
            lines == lines_of(nodes@, want@),
            rings@.len() == order@.len() == nodes@.len(),
            nodes@.len() < usize::MAX,
            rings@ == settle(start, lines as int, i as nat).rings,
            order@ == settle(start, lines as int, i as nat).order,
            forall|j: int|
                0 <= j < lines ==> ((#[trigger] order@[j]) == NOT_PRESENT || order@[j]
                    < nodes@.len()),
        decreases lines - i,
    {
        let from: usize = order[i];
        if from != NOT_PRESENT && from != i {
            let ghost s = settle(start, lines as int, i as nat);
            swap_two(rings.as_mut_slice(), i, from);
            let mut j: usize = i + 1;
            while j < lines
                invariant
                    i < j <= lines <= order@.len(),
                    order@.len() == s.order.len() == nodes@.len(),
                    from < nodes@.len(),
                    forall|k: int|
                        0 <= k < order@.len() ==> #[trigger] order@[k] == if i < k < j
                            && s.order[k] == i {
                            from
                        } else {
                            s.order[k]
                        },
                decreases lines - j,
            {
                if order[j] == i {
                    order[j] = from;
                }
                j += 1;
            }
            order[i] = i;
            assert(order@ =~= settle_one(s, i as int, lines as int).order);
        }
        i += 1;
    }

    let ghost old_nodes = nodes@;
    i = 0;
    while i < nodes.len()
        invariant
            i <= nodes@.len() == old_nodes.len(),
            forall|j: int|
                0 <= j < i ==> #[trigger] nodes@[j] == if j < want@.len() {
                    want@[j]
                } else {
                    NO_NODE
                },
        decreases nodes@.len() - i,
    {
        nodes[i] =
        if i < want.len() {
            want[i]
        } else {
            NO_NODE
        };
        i += 1;
    }
}

/// Where a line's ring lies once the first `count` lines have settled.
pub open spec fn lies_at<T>(s: Settling<T>, count: int, j: int) -> int {
    if j < count {
        j
    } else {
        s.order[j] as int
    }
}

proof fn lemma_settle<T>(start: Settling<T>, lines: int, count: nat)
    requires
        count <= lines <= start.rings.len(),
        start.order.len() == start.rings.len() < usize::MAX,
        forall|j: int|
            0 <= j < lines && #[trigger] start.order[j] != NOT_PRESENT ==> start.order[j]
                < start.rings.len(),
        forall|i: int, j: int|
            0 <= i < j < lines && start.order[i] != NOT_PRESENT ==> #[trigger] start.order[i]
                != #[trigger] start.order[j],
    ensures
        ({
            let s = settle(start, lines, count);
            &&& s.rings.len() == start.rings.len()
            &&& s.order.len() == start.order.len()
            &&& forall|j: int|
                0 <= j < lines ==> ((#[trigger] s.order[j] == NOT_PRESENT) <==> start.order[j]
                    == NOT_PRESENT)
            &&& forall|j: int|
                0 <= j < lines && #[trigger] start.order[j] != NOT_PRESENT ==> 0 <= lies_at(
                    s,
                    count as int,
                    j,
                ) < s.rings.len() && s.rings[lies_at(s, count as int, j)]
                    == start.rings[start.order[j] as int]
            &&& forall|i: int, j: int|
                0 <= i < j < lines && #[trigger] start.order[i] != NOT_PRESENT
                    && #[trigger] start.order[j] != NOT_PRESENT ==> lies_at(s, count as int, i)
                    != lies_at(s, count as int, j)
        }),
    decreases count,
{
    if count > 0 {
        lemma_settle(start, lines, (count - 1) as nat);
        let s = settle(start, lines, (count - 1) as nat);
        let t = settle(start, lines, count);
        let at = count - 1;
        let from = s.order[at];
        assert(start.order[at] == NOT_PRESENT <==> from == NOT_PRESENT);
        assert forall|j: int| 0 <= j < lines && #[trigger] start.order[j] != NOT_PRESENT implies 0
            <= lies_at(t, count as int, j) < t.rings.len() && t.rings[lies_at(t, count as int, j)]
            == start.rings[start.order[j] as int] by {
            assert(start.order[at] == start.order[at]);
            if j != at && start.order[at] != NOT_PRESENT {
                if j < at {
                    assert(lies_at(s, at, j) != lies_at(s, at, at));
                } else {
                    assert(lies_at(s, at, at) != lies_at(s, at, j));
                }
            }
        }
        assert forall|i: int, j: int|
            0 <= i < j < lines && #[trigger] start.order[i] != NOT_PRESENT
                && #[trigger] start.order[j] != NOT_PRESENT implies lies_at(t, count as int, i)
            != lies_at(t, count as int, j) by {
            assert(lies_at(s, at, i) != lies_at(s, at, j));
            if start.order[at] != NOT_PRESENT {
                if i < at {
                    assert(lies_at(s, at, i) != lies_at(s, at, at));
                }
                if i > at {
                    assert(lies_at(s, at, at) != lies_at(s, at, i));
                }
                if j < at {
                    assert(lies_at(s, at, j) != lies_at(s, at, at));
                }
                if j > at {
                    assert(lies_at(s, at, at) != lies_at(s, at, j));
                }
            }
        }
    }
}

/// No node writes two lines. Any number of lines may have no writer.
pub open spec fn distinct_writers(want: Seq<u32>) -> bool {
    forall|i: int, j: int|
        0 <= i < j < want.len() && want[i] != NO_NODE ==> #[trigger] want[i] != #[trigger] want[j]
}

/// Reordering keeps every ring whose node the new program still has: it lies
/// at the index the new program gave that node, and exactly the lines whose
/// node had no ring, or that have no node, are marked as not present.
pub proof fn law_reorder_keeps_rings<T>(
    rings: Seq<T>,
    nodes: Seq<u32>,
    order: Seq<usize>,
    want: Seq<u32>,
    line: int,
)
    requires
        rings.len() == nodes.len() == order.len() < usize::MAX,
        distinct_writers(want),
        0 <= line < lines_of(nodes, want),
    ensures
        ({
            let lines = lines_of(nodes, want);
            let start = Settling { rings, order: asked(nodes, order, want, lines) };
            let settled = settle(start, lines, lines as nat);
            &&& settled.order[line] == NOT_PRESENT <==> want[line] == NO_NODE || !nodes.contains(
                want[line],
            )
            &&& want[line] != NO_NODE ==> forall|slot: int|
                0 <= slot < nodes.len() && #[trigger] nodes[slot] == want[line] && (forall|k: int|
                    0 <= k < slot ==> nodes[k] != want[line]) ==> settled.rings[line]
                    == rings[slot]
        }),
{
    let lines = lines_of(nodes, want);
    let start = Settling { rings, order: asked(nodes, order, want, lines) };
    assert forall|j: int| 0 <= j < lines && #[trigger] start.order[j] != NOT_PRESENT implies start.order[j]
        < start.rings.len() && nodes[start.order[j] as int] == want[j] by {
        lemma_slot_from(nodes, want[j], 0);
    }
    lemma_slot_from(nodes, want[line], 0);
    lemma_settle(start, lines, lines as nat);
    let settled = settle(start, lines, lines as nat);
    assert(start.order[line] == slot_for(nodes, want[line]));
    assert forall|slot: int|
        want[line] != NO_NODE && 0 <= slot < nodes.len() && #[trigger] nodes[slot] == want[line] && (forall|k: int|
            0 <= k < slot ==> nodes[k] != want[line]) implies settled.rings[line]
        == rings[slot] by {
        let found = start.order[line];
        if found < slot {
            assert(nodes[found as int] != want[line]);
        }
        lemma_first_slot(nodes, want[line], 0, slot);
    }
}

proof fn lemma_first_slot(nodes: Seq<u32>, node: u32, at: int, slot: int)
    requires
        0 <= at <= slot < nodes.len() < usize::MAX,
        nodes[slot] == node,
        forall|k: int| at <= k < slot ==> nodes[k] != node,
    ensures
        slot_from(nodes, node, at) == slot,
    decreases slot - at,
{
    if at < slot {
        lemma_first_slot(nodes, node, at + 1, slot);
    }
}

/// Putting rings in order goes by where they lie, not by what they hold.
pub proof fn lemma_settle_mapped<T, U>(
    s: Settling<T>,
    f: spec_fn(T) -> U,
    lines: int,
    count: nat,
)
    requires
        0 <= count <= lines <= s.order.len(),
        s.rings.len() == s.order.len(),
        forall|i: int|
            0 <= i < s.order.len() && i < lines ==> #[trigger] s.order[i] == NOT_PRESENT
                || s.order[i] < s.rings.len(),
    ensures
        ({
            let mapped = Settling { rings: s.rings.map_values(f), order: s.order };
            let after = settle(s, lines, count);
            let after_mapped = settle(mapped, lines, count);
            &&& after.rings.len() == s.rings.len()
            &&& after.order.len() == s.order.len()
            &&& after_mapped.order == after.order
            &&& after_mapped.rings == after.rings.map_values(f)
            &&& forall|i: int|
                0 <= i < after.order.len() && i < lines ==> #[trigger] after.order[i]
                    == NOT_PRESENT || after.order[i] < after.rings.len()
        }),
    decreases count,
{
    let mapped = Settling { rings: s.rings.map_values(f), order: s.order };
    if count > 0 {
        lemma_settle_mapped(s, f, lines, (count - 1) as nat);
        let before = settle(s, lines, (count - 1) as nat);
        let before_mapped = settle(mapped, lines, (count - 1) as nat);
        let after = settle(s, lines, count);
        let after_mapped = settle(mapped, lines, count);
        assert(before.order[count - 1] == NOT_PRESENT || before.order[count - 1]
            < before.rings.len());
        assert(after_mapped.rings =~= after.rings.map_values(f));
        assert(after_mapped.order =~= after.order);
    }
}

/// The slots that rings are asked for in are slots there are.
pub proof fn lemma_asked(nodes: Seq<u32>, order: Seq<usize>, want: Seq<u32>)
    requires
        order.len() == nodes.len() < usize::MAX,
    ensures
        forall|i: int|
            0 <= i < lines_of(nodes, want) ==> #[trigger] asked(
                nodes,
                order,
                want,
                lines_of(nodes, want),
            )[i] == NOT_PRESENT || asked(nodes, order, want, lines_of(nodes, want))[i]
                < nodes.len(),
{
    assert forall|i: int| 0 <= i < lines_of(nodes, want) implies #[trigger] asked(
        nodes,
        order,
        want,
        lines_of(nodes, want),
    )[i] == NOT_PRESENT || asked(nodes, order, want, lines_of(nodes, want))[i] < nodes.len() by {
        lemma_slot_from(nodes, want[i], 0);
    }
}

} // verus!
