//! The edit graph: what the user draws.
//!
//! It stores nodes and links and nothing else. A graph with a dangling link or
//! a cycle is a perfectly ordinary thing to have on screen; what is made of it
//! is for the compiler to say.
use vstd::prelude::*;
use crate::ir::{LineId, NodeId};
use crate::nodes::{AudioIn, AudioOut, DelayRead, DelayWrite, NodeKind, Plugin};
use crate::number::{Real, Sample};
use crate::port::{Port, PortType};

verus! {

/// One node's identity, position and settings.
#[derive(Debug, Clone)]
pub struct Node {
    pub id: NodeId,
    /// Where it lies on the canvas.
    pub pos: [Sample; 2],
    /// Run this node even when nothing reads it.
    pub always_on: bool,
    pub kind: NodeKind,
}

/// A connection from one node's output socket to another node's input socket.
#[derive(Debug, Clone, Copy, PartialEq, Eq, Structural)]
pub struct Link {
    pub from: NodeId,
    pub from_port: u8,
    pub to: NodeId,
    pub to_port: u8,
}

/// The whole patch.
#[derive(Debug, Clone)]
pub struct Graph {
    pub nodes: Vec<Node>,
    pub links: Vec<Link>,
    /// The id of the next node. Never reused, so that a stale link is
    /// recognised as stale.
    pub next_id: NodeId,
}

/// The longest delay and the delay that a new delay line starts with, in
/// seconds: long enough for an echo, short enough to be dialled in.
pub const NEW_DELAY_MAX: u64 = 0x4000_0000_0000_0000;

pub const NEW_DELAY: u64 = 0x3fd0_0000_0000_0000;

/// Canvas positions of the patch that a new instance starts with.
pub const COLUMN_IN: u32 = 0x4270_0000;

pub const COLUMN_OUT: u32 = 0x43b4_0000;

pub const ROW: u32 = 0x42a0_0000;

/// The first node from `at` on with that id.
pub open spec fn find_from(nodes: Seq<Node>, id: NodeId, at: int) -> Option<int>
    decreases nodes.len() - at,
{
    if at >= nodes.len() {
        None
    } else if nodes[at].id == id {
        Some(at)
    } else {
        find_from(nodes, id, at + 1)
    }
}

pub open spec fn find(nodes: Seq<Node>, id: NodeId) -> Option<int> {
    find_from(nodes, id, 0)
}

pub proof fn lemma_find_from(nodes: Seq<Node>, id: NodeId, at: int)
    requires
        0 <= at,
    ensures
        match find_from(nodes, id, at) {
            Some(i) => at <= i < nodes.len() && nodes[i].id == id && forall|j: int|
                at <= j < i ==> (#[trigger] nodes[j]).id != id,
            None => forall|j: int| at <= j < nodes.len() ==> (#[trigger] nodes[j]).id != id,
        },
    decreases nodes.len() - at,
{
    if at < nodes.len() && nodes[at].id != id {
        lemma_find_from(nodes, id, at + 1);
    }
}

/// What the first link from `at` on into a socket comes from.
pub open spec fn source_from(
    links: Seq<Link>,
    to: NodeId,
    to_port: u8,
    at: int,
) -> Option<(NodeId, u8)>
    decreases links.len() - at,
{
    if at >= links.len() {
        None
    } else if links[at].to == to && links[at].to_port == to_port {
        Some((links[at].from, links[at].from_port))
    } else {
        source_from(links, to, to_port, at + 1)
    }
}

pub open spec fn source(links: Seq<Link>, to: NodeId, to_port: u8) -> Option<(NodeId, u8)> {
    source_from(links, to, to_port, 0)
}

pub proof fn lemma_source_from(links: Seq<Link>, to: NodeId, to_port: u8, at: int)
    requires
        0 <= at,
    ensures
        match source_from(links, to, to_port, at) {
            Some((from, from_port)) => exists|i: int|
                at <= i < links.len() && #[trigger] links[i] == (Link {
                    from,
                    from_port,
                    to,
                    to_port,
                }) && forall|j: int|
                    at <= j < i ==> !((#[trigger] links[j]).to == to && links[j].to_port
                        == to_port),
            None => forall|j: int|
                at <= j < links.len() ==> !((#[trigger] links[j]).to == to && links[j].to_port
                    == to_port),
        },
    decreases links.len() - at,
{
    if at < links.len() {
        if links[at].to == to && links[at].to_port == to_port {
            let link = links[at];
            assert(link == (Link { from: link.from, from_port: link.from_port, to, to_port }));
        } else {
            lemma_source_from(links, to, to_port, at + 1);
        }
    }
}

/// Whether a node names a delay line.
pub open spec fn names_line(node: Node, line: LineId) -> bool {
    match node.kind {
        NodeKind::DelayWrite(write) => write.line == line,
        NodeKind::DelayRead(read) => read.line == line,
        _ => false,
    }
}

pub open spec fn line_named(nodes: Seq<Node>, line: LineId) -> bool {
    exists|i: int| 0 <= i < nodes.len() && names_line(#[trigger] nodes[i], line)
}

/// No input has two sources.
pub open spec fn one_source_each(links: Seq<Link>) -> bool {
    forall|i: int, j: int|
        0 <= i < j < links.len() ==> !((#[trigger] links[i]).to == (#[trigger] links[j]).to
            && links[i].to_port == links[j].to_port)
}

/// No two nodes share an id, and none has one that is still to be given out.
pub open spec fn ids_fresh(nodes: Seq<Node>, next_id: NodeId) -> bool {
    &&& forall|i: int| 0 <= i < nodes.len() ==> (#[trigger] nodes[i]).id < next_id
    &&& forall|i: int, j: int|
        0 <= i < j < nodes.len() ==> (#[trigger] nodes[i]).id != (#[trigger] nodes[j]).id
}

/// A link once the sockets `first..first + count` of the node it goes into are
/// gone.
pub open spec fn slid_input(link: Link, node: NodeId, end: int, count: u8) -> Link {
    if link.to == node && link.to_port >= end {
        Link { to_port: (link.to_port - count) as u8, ..link }
    } else {
        link
    }
}

pub open spec fn slid_output(link: Link, node: NodeId, end: int, count: u8) -> Link {
    if link.from == node && link.from_port >= end {
        Link { from_port: (link.from_port - count) as u8, ..link }
    } else {
        link
    }
}

/// Whether a link leaves an output bus.
pub open spec fn wires_bus(link: Link, node: NodeId, bus: int) -> bool {
    link.from == node && link.from_port == bus
}

pub open spec fn bus_wired(links: Seq<Link>, node: NodeId, bus: int) -> bool {
    exists|i: int| 0 <= i < links.len() && wires_bus(#[trigger] links[i], node, bus)
}

/// The output buses below `count` that a patch uses: the main one, and those
/// that something is wired to.
pub open spec fn buses_used(links: Seq<Link>, node: NodeId, count: nat) -> Seq<u16>
    decreases count,
{
    if count == 0 {
        Seq::empty()
    } else {
        let lower = buses_used(links, node, (count - 1) as nat);
        if count == 1 || bus_wired(links, node, count - 1) {
            lower.push((count - 1) as u16)
        } else {
            lower
        }
    }
}

/// How many output buses a link can name.
pub open spec fn bus_limit(plugin: Plugin) -> nat {
    if plugin.ports.audio_out@.len() < 256 {
        plugin.ports.audio_out@.len()
    } else {
        256
    }
}

/// Whether a node is a plugin that has not been told which buses to show.
pub open spec fn unpicked(node: Node) -> bool {
    node.kind matches NodeKind::Plugin(plugin) && plugin.ports.audio_out_shown@.len() == 0
        && plugin.ports.audio_out@.len() > 0
}

/// A link from `node` once only the buses in `keep` have a socket.
pub open spec fn resocketed(link: Link, node: NodeId, keep: Seq<u16>) -> Link {
    if link.from == node && keep.contains(link.from_port as u16) {
        Link { from_port: keep.index_of(link.from_port as u16) as u8, ..link }
    } else {
        link
    }
}

/// The links once the first `count` nodes have picked the buses they show.
pub open spec fn migrated_links(nodes: Seq<Node>, links: Seq<Link>, count: nat) -> Seq<Link>
    decreases count,
{
    if count == 0 {
        links
    } else {
        let before = migrated_links(nodes, links, (count - 1) as nat);
        let node = nodes[count - 1];
        if unpicked(node) {
            let keep = buses_used(before, node.id, bus_limit(node.kind->Plugin_0));
            before.map_values(|link: Link| resocketed(link, node.id, keep))
        } else {
            before
        }
    }
}

/// What becomes of a node when it picks the buses it shows.
pub open spec fn migrated_node(before: Node, after: Node, links: Seq<Link>) -> bool {
    if unpicked(before) {
        let old = before.kind->Plugin_0;
        &&& after.id == before.id
        &&& after.pos == before.pos
        &&& after.always_on == before.always_on
        &&& after.kind matches NodeKind::Plugin(new) && {
            &&& new.instance == old.instance
            &&& new.ports.audio_in == old.ports.audio_in
            &&& new.ports.audio_out == old.ports.audio_out
            &&& new.ports.accepts_notes == old.ports.accepts_notes
            &&& new.ports.params == old.ports.params
            &&& new.ports.latency == old.ports.latency
            &&& new.ports.audio_out_shown@ == buses_used(links, before.id, bus_limit(old))
        }
    } else {
        after == before
    }
}

impl Graph {
    /// What an output socket carries.
    pub open spec fn out_type(self, id: NodeId, port: u8) -> Option<PortType> {
        match find(self.nodes@, id) {
            Some(i) => {
                let sockets = self.nodes@[i].kind.outputs();
                if port < sockets.len() {
                    Some(sockets[port as int].ty)
                } else {
                    None
                }
            },
            None => None,
        }
    }

    /// What an input socket takes.
    pub open spec fn in_type(self, id: NodeId, port: u8) -> Option<PortType> {
        match find(self.nodes@, id) {
            Some(i) => {
                let sockets = self.nodes@[i].kind.inputs();
                if port < sockets.len() {
                    Some(sockets[port as int].ty)
                } else {
                    None
                }
            },
            None => None,
        }
    }

    /// Audio joins audio whatever the widths; anything else joins its own
    /// kind, and nothing joins itself.
    pub open spec fn joins(self, from: NodeId, from_port: u8, to: NodeId, to_port: u8) -> bool {
        from != to && match (self.out_type(from, from_port), self.in_type(to, to_port)) {
            (Some(PortType::Audio { .. }), Some(PortType::Audio { .. })) => true,
            (Some(a), Some(b)) => a == b,
            _ => false,
        }
    }

    pub fn new() -> (r: Graph)
        ensures
            r.nodes@ == Seq::<Node>::empty(),
            r.links@ == Seq::<Link>::empty(),
            r.next_id == 0,
    {
        Graph { nodes: Vec::new(), links: Vec::new(), next_id: 0 }
    }

    /// The patch a new instance starts with: the main input wired straight to
    /// the main output. What is heard is what is drawn, so an empty canvas is
    /// silence and not a bypass.
    pub fn default_patch() -> (r: Graph)
        ensures
            r.nodes@ == seq![
                Node {
                    id: 0,
                    pos: [Sample { bits: COLUMN_IN }, Sample { bits: ROW }],
                    always_on: false,
                    kind: NodeKind::AudioIn(AudioIn { bus: 0, channels: 2 }),
                },
                Node {
                    id: 1,
                    pos: [Sample { bits: COLUMN_OUT }, Sample { bits: ROW }],
                    always_on: false,
                    kind: NodeKind::AudioOut(AudioOut { bus: 0, channels: 2 }),
                },
            ],
            r.links@ == seq![Link { from: 0, from_port: 0, to: 1, to_port: 0 }],
            r.next_id == 2,
    {
        let mut graph: Graph = Graph::new();
        let input: NodeId = graph.add(
            NodeKind::AudioIn(AudioIn { bus: 0, channels: 2 }),
            [Sample { bits: COLUMN_IN }, Sample { bits: ROW }],
        );
        let output: NodeId = graph.add(
            NodeKind::AudioOut(AudioOut { bus: 0, channels: 2 }),
            [Sample { bits: COLUMN_OUT }, Sample { bits: ROW }],
        );
        proof {
            reveal_with_fuel(find_from, 3);
        }
        let ghost nodes = graph.nodes@;
        assert(graph.joins(input, 0, output, 0));
        graph.connect(input, 0, output, 0);
        proof {
            reveal(Seq::filter);
        }
        graph
    }

    pub fn is_empty(&self) -> (r: bool)
        ensures
            r == (self.nodes@.len() == 0),
    {
        self.nodes.is_empty()
    }

    pub fn add(&mut self, kind: NodeKind, pos: [Sample; 2]) -> (id: NodeId)
        requires
            old(self).next_id < u32::MAX,
        ensures
            id == old(self).next_id,
            final(self).next_id == old(self).next_id + 1,
            final(self).nodes@ == old(self).nodes@.push(
                (Node { id: old(self).next_id, pos, always_on: false, kind }),
            ),
            final(self).links == old(self).links,
    {
        let id: NodeId = self.next_id;
        self.next_id = self.next_id + 1;
        self.nodes.push(Node { id, pos, always_on: false, kind });
        id
    }

    /// Adds both halves of a delay line, on a line nothing else is using, and
    /// returns the write and the read.
    pub fn add_delay(
        &mut self,
        ty: PortType,
        pos: [Sample; 2],
        read_pos: [Sample; 2],
    ) -> (ids: (NodeId, NodeId))
        requires
            old(self).next_id + 1 < u32::MAX,
            old(self).nodes@.len() < u32::MAX,
        ensures
            ids.0 == old(self).next_id,
            ids.1 == old(self).next_id + 1,
            final(self).next_id == old(self).next_id + 2,
            final(self).links == old(self).links,
            final(self).nodes@.len() == old(self).nodes@.len() + 2,
            final(self).nodes@.take(old(self).nodes@.len() as int) == old(self).nodes@,
            ({
                let write = final(self).nodes@[old(self).nodes@.len() as int];
                let read = final(self).nodes@[old(self).nodes@.len() as int + 1];
                let line = write.kind->DelayWrite_0.line;
                &&& write == (Node {
                    id: ids.0,
                    pos,
                    always_on: false,
                    kind: NodeKind::DelayWrite(DelayWrite { line, ty }),
                })
                &&& read == (Node {
                    id: ids.1,
                    pos: read_pos,
                    always_on: false,
                    kind: NodeKind::DelayRead(
                        DelayRead {
                            line,
                            ty,
                            max_time: Real { bits: NEW_DELAY_MAX },
                            time: Real { bits: NEW_DELAY },
                        },
                    ),
                })
                &&& !line_named(old(self).nodes@, line)
                &&& forall|lower: LineId|
                    lower < line ==> #[trigger] line_named(old(self).nodes@, lower)
            }),
    {
        let line: LineId = self.free_line();
        let write: NodeId = self.add(NodeKind::DelayWrite(DelayWrite { line, ty }), pos);
        let read: NodeId = self.add(
            NodeKind::DelayRead(
                DelayRead {
                    line,
                    ty,
                    max_time: Real { bits: NEW_DELAY_MAX },
                    time: Real { bits: NEW_DELAY },
                },
            ),
            read_pos,
        );
        assert(self.nodes@.take(old(self).nodes@.len() as int) =~= old(self).nodes@);
        (write, read)
    }

    /// The lowest line number no node mentions.
    pub fn free_line(&self) -> (line: LineId)
        requires
            self.nodes@.len() < u32::MAX,
        ensures
            !line_named(self.nodes@, line),
            forall|lower: LineId| lower < line ==> #[trigger] line_named(self.nodes@, lower),
    {
        let mut line: LineId = 0;
        while self.mentions(line)
            invariant
                self.nodes@.len() < u32::MAX,
                line <= self.nodes@.len(),
                forall|lower: LineId| lower < line ==> #[trigger] line_named(self.nodes@, lower),
            decreases self.nodes@.len() - line,
        {
            proof {
                assert forall|lower: LineId| lower <= line implies #[trigger] line_named(
                    self.nodes@,
                    lower,
                ) by {}
                lemma_lines_bounded(self.nodes@, (line + 1) as nat);
            }
            line = line + 1;
        }
        line
    }

    fn mentions(&self, line: LineId) -> (r: bool)
        ensures
            r == line_named(self.nodes@, line),
    {
        let mut at: usize = 0;
        while at < self.nodes.len()
            invariant
                at <= self.nodes@.len(),
                forall|i: int| 0 <= i < at ==> !names_line(#[trigger] self.nodes@[i], line),
            decreases self.nodes@.len() - at,
        {
            let named: bool = match &self.nodes[at].kind {
                NodeKind::DelayWrite(write) => write.line == line,
                NodeKind::DelayRead(read) => read.line == line,
                _ => false,
            };
            if named {
                assert(names_line(self.nodes@[at as int], line));
                return true;
            }
            at += 1;
        }
        false
    }

    fn position(&self, id: NodeId) -> (r: Option<usize>)
        ensures
            match r {
                Some(i) => find(self.nodes@, id) == Some(i as int) && i < self.nodes@.len(),
                None => find(self.nodes@, id) is None,
            },
    {
        let mut at: usize = 0;
        while at < self.nodes.len()
            invariant
                at <= self.nodes@.len(),
                find(self.nodes@, id) == find_from(self.nodes@, id, at as int),
            decreases self.nodes@.len() - at,
        {
            if self.nodes[at].id == id {
                return Some(at);
            }
            at += 1;
        }
        None
    }

    pub fn node(&self, id: NodeId) -> (r: Option<&Node>)
        ensures
            match find(self.nodes@, id) {
                Some(i) => 0 <= i < self.nodes@.len() && r == Some(&self.nodes@[i]),
                None => r is None,
            },
    {
        match self.position(id) {
            Some(i) => Some(&self.nodes[i]),
            None => None,
        }
    }

    pub fn node_mut(&mut self, id: NodeId) -> (r: Option<&mut Node>)
        ensures
            match (find(old(self).nodes@, id), r) {
                (Some(i), Some(node)) => {
                    &&& *node == old(self).nodes@[i]
                    &&& final(self).nodes@ == old(self).nodes@.update(i, *final(node))
                    &&& final(self).links == old(self).links
                    &&& final(self).next_id == old(self).next_id
                },
                (None, None) => *final(self) == *old(self),
                _ => false,
            },
    {
        match self.position(id) {
            Some(i) => Some(&mut self.nodes[i]),
            None => None,
        }
    }

    /// What one of a node's output sockets carries, if it has it.
    pub fn output_type(&self, id: NodeId, port: u8) -> (r: Option<PortType>)
        ensures
            r == self.out_type(id, port),
    {
        match self.node(id) {
            Some(node) => {
                let ports: Vec<Port> = node.kind.output_ports();
                assert(crate::port::sockets(ports@).len() == ports@.len());
                if (port as usize) < ports.len() {
                    assert(crate::port::sockets(ports@)[port as int] == ports@[port as int]@);
                    Some(ports[port as usize].ty)
                } else {
                    None
                }
            },
            None => None,
        }
    }

    /// What one of a node's input sockets takes, if it has it.
    pub fn input_type(&self, id: NodeId, port: u8) -> (r: Option<PortType>)
        ensures
            r == self.in_type(id, port),
    {
        match self.node(id) {
            Some(node) => {
                let ports: Vec<Port> = node.kind.input_ports();
                assert(crate::port::sockets(ports@).len() == ports@.len());
                if (port as usize) < ports.len() {
                    assert(crate::port::sockets(ports@)[port as int] == ports@[port as int]@);
                    Some(ports[port as usize].ty)
                } else {
                    None
                }
            },
            None => None,
        }
    }

    /// Whether two sockets may be joined.
    pub fn can_connect(&self, from: NodeId, from_port: u8, to: NodeId, to_port: u8) -> (r: bool)
        ensures
            r == self.joins(from, from_port, to, to_port),
    {
        if from == to {
            return false;
        }
        match (self.output_type(from, from_port), self.input_type(to, to_port)) {
            (Some(PortType::Audio { .. }), Some(PortType::Audio { .. })) => true,
            (Some(a), Some(b)) => a == b,
            _ => false,
        }
    }

    /// Removes a node and every link that touched it.
    pub fn remove(&mut self, id: NodeId)
        ensures
            final(self).nodes@ == old(self).nodes@.filter(|node: Node| node.id != id),
            final(self).links@ == old(self).links@.filter(
                |link: Link| link.from != id && link.to != id,
            ),
            final(self).next_id == old(self).next_id,
    {
        let ghost before = self.nodes@;
        let ghost other = |node: Node| node.id != id;
        let mut at: usize = 0;
        let ghost mut seen: int = 0;
        proof {
            reveal(Seq::filter);
            assert(before.take(0) =~= Seq::<Node>::empty());
            assert(before.skip(0) =~= before);
        }
        while at < self.nodes.len()
            invariant
                0 <= seen <= before.len(),
                at <= self.nodes@.len(),
                other == (|node: Node| node.id != id),
                self.nodes@.take(at as int) == before.take(seen).filter(other),
                self.nodes@.skip(at as int) == before.skip(seen),
                self.nodes@.len() - at == before.len() - seen,
                self.links == old(self).links,
                self.next_id == old(self).next_id,
            decreases self.nodes@.len() - at,
        {
            let ghost current = self.nodes@;
            proof {
                reveal(Seq::filter);
                assert(before.take(seen + 1).drop_last() =~= before.take(seen));
                assert(current.skip(at as int)[0] == before.skip(seen)[0]);
                assert(before.skip(seen).skip(1) =~= before.skip(seen + 1));
                assert(current.skip(at as int).skip(1) =~= current.skip(at + 1));
            }
            if self.nodes[at].id == id {
                let _ = self.nodes.remove(at);
                proof {
                    assert(self.nodes@.take(at as int) =~= current.take(at as int));
                    assert(self.nodes@.skip(at as int) =~= current.skip(at + 1));
                }
            } else {
                proof {
                    assert(current.take(at + 1) =~= current.take(at as int).push(
                        current[at as int],
                    ));
                }
                at += 1;
            }
            proof {
                seen = seen + 1;
            }
        }
        proof {
            assert(self.nodes@.take(at as int) =~= self.nodes@);
            assert(before.take(seen) =~= before);
        }
        cut(&mut self.links, Cut::Touching { node: id });
        assert((|link: Link| !cuts(Cut::Touching { node: id }, link)) =~= (|link: Link|
            link.from != id && link.to != id));
    }

    /// Connects two sockets, replacing whatever already fed that input. A pair
    /// that may not be joined is ignored.
    pub fn connect(&mut self, from: NodeId, from_port: u8, to: NodeId, to_port: u8)
        ensures
            final(self).nodes == old(self).nodes,
            final(self).next_id == old(self).next_id,
            final(self).links@ == if old(self).joins(from, from_port, to, to_port) {
                old(self).links@.filter(
                    |link: Link| !(link.to == to && link.to_port == to_port),
                ).push((Link { from, from_port, to, to_port }))
            } else {
                old(self).links@
            },
    {
        if !self.can_connect(from, from_port, to, to_port) {
            return;
        }
        self.disconnect(to, to_port);
        self.links.push(Link { from, from_port, to, to_port });
    }

    pub fn disconnect(&mut self, to: NodeId, to_port: u8)
        ensures
            final(self).nodes == old(self).nodes,
            final(self).next_id == old(self).next_id,
            final(self).links@ == old(self).links@.filter(
                |link: Link| !(link.to == to && link.to_port == to_port),
            ),
    {
        cut(&mut self.links, Cut::Into { node: to, port: to_port });
        assert((|link: Link| !cuts(Cut::Into { node: to, port: to_port }, link)) =~= (|link: Link|
            !(link.to == to && link.to_port == to_port)));
    }

    /// A node has lost `count` input sockets starting at `first`: cuts what was
    /// plugged into them, and slides every later socket's link down, so that it
    /// still means the socket it meant before.
    pub fn drop_inputs(&mut self, node: NodeId, first: u8, count: u8)
        ensures
            final(self).nodes == old(self).nodes,
            final(self).next_id == old(self).next_id,
            final(self).links@ == if count == 0 {
                old(self).links@
            } else {
                old(self).links@.filter(
                    |link: Link|
                        !(link.to == node && first <= link.to_port < first + count),
                ).map_values(
                    |link: Link| slid_input(link, node, first + count, count),
                )
            },
    {
        if count == 0 {
            return;
        }
        let end: u16 = first as u16 + count as u16;
        cut(&mut self.links, Cut::IntoRange { node, first, end });
        let ghost kept = self.links@;
        let mut at: usize = 0;
        while at < self.links.len()
            invariant
                at <= self.links@.len() == kept.len(),
                end == first + count,
                self.nodes == old(self).nodes,
                self.next_id == old(self).next_id,
                forall|i: int|
                    0 <= i < kept.len() ==> #[trigger] self.links@[i] == if i < at {
                        slid_input(kept[i], node, end as int, count)
                    } else {
                        kept[i]
                    },
            decreases self.links@.len() - at,
        {
            let link: Link = self.links[at];
            if link.to == node && link.to_port as u16 >= end {
                self.links[at] = Link { to_port: link.to_port - count, ..link };
            }
            at += 1;
        }
        assert(self.links@ =~= kept.map_values(
            |link: Link| slid_input(link, node, first + count, count),
        ));
        assert((|link: Link| !cuts(Cut::IntoRange { node, first, end }, link)) =~= (|link: Link|
            !(link.to == node && first <= link.to_port < first + count)));
    }

    /// The mirror of [`Graph::drop_inputs`], for a node that lost outputs.
    pub fn drop_outputs(&mut self, node: NodeId, first: u8, count: u8)
        ensures
            final(self).nodes == old(self).nodes,
            final(self).next_id == old(self).next_id,
            final(self).links@ == if count == 0 {
                old(self).links@
            } else {
                old(self).links@.filter(
                    |link: Link|
                        !(link.from == node && first <= link.from_port < first + count),
                ).map_values(
                    |link: Link| slid_output(link, node, first + count, count),
                )
            },
    {
        if count == 0 {
            return;
        }
        let end: u16 = first as u16 + count as u16;
        cut(&mut self.links, Cut::FromRange { node, first, end });
        let ghost kept = self.links@;
        let mut at: usize = 0;
        while at < self.links.len()
            invariant
                at <= self.links@.len() == kept.len(),
                end == first + count,
                self.nodes == old(self).nodes,
                self.next_id == old(self).next_id,
                forall|i: int|
                    0 <= i < kept.len() ==> #[trigger] self.links@[i] == if i < at {
                        slid_output(kept[i], node, end as int, count)
                    } else {
                        kept[i]
                    },
            decreases self.links@.len() - at,
        {
            let link: Link = self.links[at];
            if link.from == node && link.from_port as u16 >= end {
                self.links[at] = Link { from_port: link.from_port - count, ..link };
            }
            at += 1;
        }
        assert(self.links@ =~= kept.map_values(
            |link: Link| slid_output(link, node, first + count, count),
        ));
        assert((|link: Link| !cuts(Cut::FromRange { node, first, end }, link)) =~= (|link: Link|
            !(link.from == node && first <= link.from_port < first + count)));
    }

    /// What feeds one of a node's inputs: the source node and its output.
    pub fn source_of(&self, to: NodeId, to_port: u8) -> (r: Option<(NodeId, u8)>)
        ensures
            r == source(self.links@, to, to_port),
    {
        let mut at: usize = 0;
        while at < self.links.len()
            invariant
                at <= self.links@.len(),
                source(self.links@, to, to_port) == source_from(
                    self.links@,
                    to,
                    to_port,
                    at as int,
                ),
            decreases self.links@.len() - at,
        {
            let link: Link = self.links[at];
            if link.to == to && link.to_port == to_port {
                return Some((link.from, link.from_port));
            }
            at += 1;
        }
        None
    }

    /// Drops the links that no longer make sense: those whose ends are gone, or
    /// stopped agreeing on a type. Lifts the id counter above every id in use,
    /// which a patch from elsewhere may need.
    pub fn prune(&mut self)
        requires
            forall|i: int| 0 <= i < old(self).nodes@.len() ==> (#[trigger] old(self).nodes@[i]).id
                < u32::MAX,
        ensures
            final(self).nodes@.len() == old(self).nodes@.len(),
            forall|i: int|
                0 <= i < old(self).nodes@.len() ==> migrated_node(
                    #[trigger] old(self).nodes@[i],
                    final(self).nodes@[i],
                    migrated_links(old(self).nodes@, old(self).links@, i as nat),
                ),
            final(self).links@ == migrated_links(
                old(self).nodes@,
                old(self).links@,
                old(self).nodes@.len(),
            ).filter(
                |link: Link|
                    final(self).joins(link.from, link.from_port, link.to, link.to_port),
            ),
            final(self).next_id >= old(self).next_id,
            forall|i: int|
                0 <= i < final(self).nodes@.len() ==> (#[trigger] final(self).nodes@[i]).id
                    < final(self).next_id,
            final(self).next_id == old(self).next_id || exists|i: int|
                0 <= i < final(self).nodes@.len() && (#[trigger] final(self).nodes@[i]).id + 1
                    == final(self).next_id,
    {
        self.migrate_plugin_outputs();
        assert forall|i: int| 0 <= i < self.nodes@.len() implies (#[trigger] self.nodes@[i]).id
            < u32::MAX by {
            assert(old(self).nodes@[i].id < u32::MAX);
        }
        let ghost moved = self.links@;
        let ghost alive = |link: Link|
            self.joins(link.from, link.from_port, link.to, link.to_port);
        let mut kept: Vec<Link> = Vec::new();
        let mut at: usize = 0;
        proof {
            reveal(Seq::filter);
            assert(moved.take(0) =~= Seq::<Link>::empty());
        }
        while at < self.links.len()
            invariant
                at <= self.links@.len(),
                self.links@ == moved,
                alive == (|link: Link|
                    self.joins(link.from, link.from_port, link.to, link.to_port)),
                kept@ == moved.take(at as int).filter(alive),
            decreases self.links@.len() - at,
        {
            proof {
                reveal(Seq::filter);
                assert(moved.take(at + 1).drop_last() =~= moved.take(at as int));
            }
            let link: Link = self.links[at];
            if self.can_connect(link.from, link.from_port, link.to, link.to_port) {
                kept.push(link);
            }
            at += 1;
        }
        assert(moved.take(at as int) =~= moved);
        let ghost before = *self;
        self.links = kept;
        assert(self.nodes == before.nodes);
        assert(alive =~= (|link: Link|
            self.joins(link.from, link.from_port, link.to, link.to_port)));

        let mut highest: NodeId = self.next_id;
        let mut i: usize = 0;
        while i < self.nodes.len()
            invariant
                i <= self.nodes@.len(),
                self.nodes@.len() == old(self).nodes@.len(),
                forall|j: int|
                    0 <= j < self.nodes@.len() ==> (#[trigger] self.nodes@[j]).id < u32::MAX,
                highest >= self.next_id,
                forall|j: int| 0 <= j < i ==> (#[trigger] self.nodes@[j]).id < highest,
                highest == self.next_id || exists|j: int|
                    0 <= j < i && (#[trigger] self.nodes@[j]).id + 1 == highest,
            decreases self.nodes@.len() - i,
        {
            let above: NodeId = self.nodes[i].id + 1;
            if above > highest {
                highest = above;
                assert(self.nodes@[i as int].id + 1 == highest);
            }
            i += 1;
        }
        let ghost pruned = *self;
        self.next_id = highest;
        assert(alive =~= (|link: Link|
            self.joins(link.from, link.from_port, link.to, link.to_port))) by {
            assert(self.nodes == before.nodes);
        }
    }

    /// Gives a plugin node that has not picked its output buses the sockets it
    /// was actually using: the main bus, and those that something is wired to.
    ///
    /// A plugin can have dozens of output buses and a patch uses few of them.
    /// The links move with their buses.
    pub fn migrate_plugin_outputs(&mut self)
        ensures
            final(self).next_id == old(self).next_id,
            final(self).nodes@.len() == old(self).nodes@.len(),
            forall|i: int|
                0 <= i < old(self).nodes@.len() ==> migrated_node(
                    #[trigger] old(self).nodes@[i],
                    final(self).nodes@[i],
                    migrated_links(old(self).nodes@, old(self).links@, i as nat),
                ),
            final(self).links@ == migrated_links(
                old(self).nodes@,
                old(self).links@,
                old(self).nodes@.len(),
            ),
    {
        let ghost nodes = self.nodes@;
        let ghost links = self.links@;
        let mut at: usize = 0;
        while at < self.nodes.len()
            invariant
                at <= self.nodes@.len() == nodes.len(),
                self.next_id == old(self).next_id,
                self.links@ == migrated_links(nodes, links, at as nat),
                forall|i: int|
                    0 <= i < at ==> migrated_node(
                        #[trigger] nodes[i],
                        self.nodes@[i],
                        migrated_links(nodes, links, i as nat),
                    ),
                forall|i: int| at <= i < nodes.len() ==> #[trigger] self.nodes@[i] == nodes[i],
            decreases nodes.len() - at,
        {
            let id: NodeId = self.nodes[at].id;
            let count: usize = match &self.nodes[at].kind {
                NodeKind::Plugin(plugin) => {
                    if plugin.ports.audio_out_shown.is_empty() {
                        plugin.ports.audio_out.len()
                    } else {
                        0
                    }
                },
                _ => 0,
            };
            assert(self.nodes@[at as int] == nodes[at as int]);
            if count > 0 {
                let ghost before = self.links@;
                let limit: usize = if count < 256 {
                    count
                } else {
                    256
                };
                let keep: Vec<u16> = self.used_buses(id, limit);
                proof {
                    lemma_buses_used(before, id, limit as nat);
                    lemma_ascending_short(keep@, limit as int);
                }
                resocket(&mut self.links, id, &keep);
                let ghost node = self.nodes@[at as int];
                match &mut self.nodes[at].kind {
                    NodeKind::Plugin(plugin) => {
                        plugin.ports.audio_out_shown = keep;
                    },
                    _ => {},
                }
                assert(migrated_node(node, self.nodes@[at as int], before));
            }
            at += 1;
        }
    }

    /// The output buses below `count` that the patch uses.
    fn used_buses(&self, id: NodeId, count: usize) -> (r: Vec<u16>)
        requires
            count <= 256,
        ensures
            r@ == buses_used(self.links@, id, count as nat),
    {
        let mut used: Vec<u16> = Vec::new();
        let mut bus: usize = 0;
        while bus < count
            invariant
                bus <= count <= 256,
                used@ == buses_used(self.links@, id, bus as nat),
            decreases count - bus,
        {
            let mut wired: bool = bus == 0;
            let mut at: usize = 0;
            while at < self.links.len() && !wired
                invariant
                    at <= self.links@.len(),
                    bus < 256,
                    wired ==> bus == 0 || bus_wired(self.links@, id, bus as int),
                    !wired ==> bus != 0 && forall|i: int|
                        0 <= i < at ==> !wires_bus(#[trigger] self.links@[i], id, bus as int),
                decreases self.links@.len() - at + if wired {
                    0int
                } else {
                    1int
                },
            {
                let link: Link = self.links[at];
                if link.from == id && link.from_port as usize == bus {
                    assert(wires_bus(self.links@[at as int], id, bus as int));
                    wired = true;
                }
                at += 1;
            }
            if wired {
                used.push(bus as u16);
            }
            bus += 1;
        }
        used
    }
}

/// Moves the links that leave `id` to the sockets of their buses.
fn resocket(links: &mut Vec<Link>, id: NodeId, keep: &Vec<u16>)
    requires
        forall|i: int, j: int| 0 <= i < j < keep@.len() ==> #[trigger] keep@[i] < #[trigger] keep@[j],
        keep@.len() <= 256,
    ensures
        final(links)@ == old(links)@.map_values(|link: Link| resocketed(link, id, keep@)),
{
    let ghost before = links@;
    let mut at: usize = 0;
    while at < links.len()
        invariant
            at <= links@.len() == before.len(),
            keep@.len() <= 256,
            forall|i: int, j: int|
                0 <= i < j < keep@.len() ==> #[trigger] keep@[i] < #[trigger] keep@[j],
            forall|i: int|
                0 <= i < before.len() ==> #[trigger] links@[i] == if i < at {
                    resocketed(before[i], id, keep@)
                } else {
                    before[i]
                },
        decreases before.len() - at,
    {
        let link: Link = links[at];
        if link.from == id {
            if let Some(port) = index_in(keep, link.from_port as u16) {
                links[at] = Link { from_port: port as u8, ..link };
            }
        }
        at += 1;
    }
    assert(links@ =~= before.map_values(|link: Link| resocketed(link, id, keep@)));
}

/// Where a bus stands in an ascending list.
fn index_in(list: &Vec<u16>, bus: u16) -> (r: Option<usize>)
    requires
        forall|i: int, j: int| 0 <= i < j < list@.len() ==> #[trigger] list@[i] < #[trigger] list@[j],
    ensures
        match r {
            Some(i) => list@.contains(bus) && i == list@.index_of(bus) && i < list@.len(),
            None => !list@.contains(bus),
        },
{
    let mut at: usize = 0;
    while at < list.len()
        invariant
            at <= list@.len(),
            forall|i: int, j: int|
                0 <= i < j < list@.len() ==> #[trigger] list@[i] < #[trigger] list@[j],
            forall|i: int| 0 <= i < at ==> #[trigger] list@[i] != bus,
        decreases list@.len() - at,
    {
        if list[at] == bus {
            assert(list@.contains(bus));
            assert(list@[list@.index_of(bus)] == bus);
            return Some(at);
        }
        at += 1;
    }
    None
}

proof fn lemma_buses_used(links: Seq<Link>, node: NodeId, count: nat)
    requires
        count <= 256,
    ensures
        forall|i: int, j: int|
            0 <= i < j < buses_used(links, node, count).len() ==> #[trigger] buses_used(
                links,
                node,
                count,
            )[i] < #[trigger] buses_used(links, node, count)[j],
        forall|i: int|
            0 <= i < buses_used(links, node, count).len() ==> #[trigger] buses_used(
                links,
                node,
                count,
            )[i] < count,
        count > 0 ==> buses_used(links, node, count).len() > 0 && buses_used(
            links,
            node,
            count,
        )[0] == 0,
    decreases count,
{
    if count > 0 {
        lemma_buses_used(links, node, (count - 1) as nat);
        let lower = buses_used(links, node, (count - 1) as nat);
        let used = buses_used(links, node, count);
        if used.len() > lower.len() {
            assert(used == lower.push((count - 1) as u16));
            assert forall|i: int| 0 <= i < used.len() implies #[trigger] used[i] < count by {
                if i < lower.len() {
                    assert(used[i] == lower[i]);
                }
            }
            assert forall|i: int, j: int| 0 <= i < j < used.len() implies #[trigger] used[i]
                < #[trigger] used[j] by {
                assert(used[i] == lower[i]);
                if j < lower.len() {
                    assert(used[j] == lower[j]);
                }
            }
        } else {
            assert(used == lower);
        }
    }
}

/// A strictly ascending list of numbers below `bound` has no more than `bound`
/// of them.
proof fn lemma_ascending_short(list: Seq<u16>, bound: int)
    requires
        forall|i: int, j: int| 0 <= i < j < list.len() ==> #[trigger] list[i] < #[trigger] list[j],
        forall|i: int| 0 <= i < list.len() ==> #[trigger] list[i] < bound,
        bound >= 0,
    ensures
        list.len() <= bound,
    decreases list.len(),
{
    if list.len() > 0 {
        let last = list.last() as int;
        assert forall|i: int| 0 <= i < list.drop_last().len() implies #[trigger] list.drop_last()[i]
            < last by {
            assert(list[i] < list[list.len() - 1]);
        }
        lemma_ascending_short(list.drop_last(), last);
    }
}

/// Which links to cut.
#[derive(Clone, Copy)]
enum Cut {
    Touching { node: NodeId },
    Into { node: NodeId, port: u8 },
    IntoRange { node: NodeId, first: u8, end: u16 },
    FromRange { node: NodeId, first: u8, end: u16 },
}

spec fn cuts(which: Cut, link: Link) -> bool {
    match which {
        Cut::Touching { node } => link.from == node || link.to == node,
        Cut::Into { node, port } => link.to == node && link.to_port == port,
        Cut::IntoRange { node, first, end } => link.to == node && first <= link.to_port < end,
        Cut::FromRange { node, first, end } => link.from == node && first <= link.from_port < end,
    }
}

/// Keeps the links that are not cut, in order.
fn cut(links: &mut Vec<Link>, which: Cut)
    ensures
        final(links)@ == old(links)@.filter(|link: Link| !cuts(which, link)),
{
    let ghost before = links@;
    let ghost kept = |link: Link| !cuts(which, link);
    let mut out: Vec<Link> = Vec::new();
    let mut at: usize = 0;
    proof {
        reveal(Seq::filter);
        assert(before.take(0) =~= Seq::<Link>::empty());
    }
    while at < links.len()
        invariant
            at <= links@.len(),
            links@ == before,
            kept == (|link: Link| !cuts(which, link)),
            out@ == before.take(at as int).filter(kept),
        decreases links@.len() - at,
    {
        proof {
            reveal(Seq::filter);
            assert(before.take(at + 1).drop_last() =~= before.take(at as int));
        }
        let link: Link = links[at];
        let gone: bool = match which {
            Cut::Touching { node } => link.from == node || link.to == node,
            Cut::Into { node, port } => link.to == node && link.to_port == port,
            Cut::IntoRange { node, first, end } => link.to == node && first <= link.to_port
                && (link.to_port as u16) < end,
            Cut::FromRange { node, first, end } => link.from == node && first <= link.from_port
                && (link.from_port as u16) < end,
        };
        if !gone {
            out.push(link);
        }
        at += 1;
    }
    assert(before.take(at as int) =~= before);
    *links = out;
}

/// The lines that nodes name.
spec fn lines_named(nodes: Seq<Node>) -> Set<int>
    decreases nodes.len(),
{
    if nodes.len() == 0 {
        Set::empty()
    } else {
        let rest = lines_named(nodes.drop_last());
        match nodes.last().kind {
            NodeKind::DelayWrite(write) => rest.insert(write.line as int),
            NodeKind::DelayRead(read) => rest.insert(read.line as int),
            _ => rest,
        }
    }
}

proof fn lemma_lines_named(nodes: Seq<Node>)
    ensures
        lines_named(nodes).finite(),
        lines_named(nodes).len() <= nodes.len(),
        forall|line: LineId|
            #[trigger] line_named(nodes, line) ==> lines_named(nodes).contains(line as int),
    decreases nodes.len(),
{
    if nodes.len() > 0 {
        let front = nodes.drop_last();
        lemma_lines_named(front);
        assert forall|line: LineId| #[trigger] line_named(nodes, line) implies lines_named(
            nodes,
        ).contains(line as int) by {
            let i = choose|i: int| 0 <= i < nodes.len() && names_line(#[trigger] nodes[i], line);
            if i < front.len() {
                assert(names_line(front[i], line));
                assert(line_named(front, line));
            }
        }
    } else {
        assert forall|line: LineId| #[trigger] line_named(nodes, line) implies false by {}
    }
}

/// Nodes cannot name more lines than there are nodes.
proof fn lemma_lines_bounded(nodes: Seq<Node>, lines: nat)
    requires
        lines <= u32::MAX,
        forall|line: LineId| line < lines ==> #[trigger] line_named(nodes, line),
    ensures
        lines <= nodes.len(),
{
    lemma_lines_named(nodes);
    let range = vstd::set_lib::set_int_range(0, lines as int);
    vstd::set_lib::lemma_int_range(0, lines as int);
    assert(range.subset_of(lines_named(nodes))) by {
        assert forall|l: int| range.contains(l) implies lines_named(nodes).contains(l) by {
            assert(line_named(nodes, l as u32));
        }
    }
    vstd::set_lib::lemma_len_subset(range, lines_named(nodes));
}

/// One more link feeds a socket only where nothing fed it before.
proof fn lemma_source_push(links: Seq<Link>, link: Link, to: NodeId, port: u8, at: int)
    requires
        0 <= at <= links.len(),
    ensures
        source_from(links.push(link), to, port, at) == match source_from(links, to, port, at) {
            Some(fed) => Some(fed),
            None => if link.to == to && link.to_port == port {
                Some((link.from, link.from_port))
            } else {
                None
            },
        },
    decreases links.len() - at,
{
    if at < links.len() {
        if !(links[at].to == to && links[at].to_port == port) {
            lemma_source_push(links, link, to, port, at + 1);
        }
    } else {
        reveal_with_fuel(source_from, 2);
    }
}

proof fn lemma_filter_one_source(links: Seq<Link>, kept: spec_fn(Link) -> bool)
    requires
        one_source_each(links),
    ensures
        one_source_each(links.filter(kept)),
        forall|i: int|
            0 <= i < links.filter(kept).len() ==> links.contains(#[trigger] links.filter(kept)[i])
                && kept(links.filter(kept)[i]),
    decreases links.len(),
{
    reveal(Seq::filter);
    if links.len() > 0 {
        let front = links.drop_last();
        lemma_filter_one_source(front, kept);
        let below = front.filter(kept);
        assert forall|i: int| 0 <= i < below.len() implies links.contains(#[trigger] below[i]) && (
        exists|k: int| 0 <= k < links.len() - 1 && links[k] == below[i]) by {
            assert(front.contains(below[i]));
            let k = choose|k: int| 0 <= k < front.len() && front[k] == below[i];
            assert(links[k] == below[i]);
        }
        assert(links.contains(links.last()));
    }
}

/// After a connection the source of the input is what was connected, whatever
/// fed it before; every other input keeps its source.
pub proof fn law_connect_feeds(links: Seq<Link>, link: Link, to: NodeId, port: u8)
    ensures
        ({
            let after = links.filter(
                |other: Link| !(other.to == link.to && other.to_port == link.to_port),
            ).push(link);
            source(after, to, port) == if to == link.to && port == link.to_port {
                Some((link.from, link.from_port))
            } else {
                source(links, to, port)
            }
        }),
{
    let others = |other: Link| !(other.to == link.to && other.to_port == link.to_port);
    lemma_source_push(links.filter(others), link, to, port, 0);
    lemma_source_filter(links, others, to, port);
}

/// Cutting links leaves the source of a socket whose links are all kept, and
/// takes it from one whose links are all cut.
proof fn lemma_source_filter(
    links: Seq<Link>,
    kept: spec_fn(Link) -> bool,
    to: NodeId,
    port: u8,
)
    ensures
        (forall|link: Link| link.to == to && link.to_port == port ==> #[trigger] kept(link))
            ==> source(links.filter(kept), to, port) == source(links, to, port),
        (forall|link: Link| link.to == to && link.to_port == port ==> !(#[trigger] kept(link)))
            ==> source(links.filter(kept), to, port) is None,
    decreases links.len(),
{
    reveal(Seq::filter);
    if links.len() > 0 {
        let front = links.drop_last();
        lemma_source_filter(front, kept, to, port);
        lemma_source_push(front, links.last(), to, port, 0);
        assert(front.push(links.last()) =~= links);
        lemma_source_push(front.filter(kept), links.last(), to, port, 0);
    }
}

/// An input only ever has one source: connecting keeps it so.
pub proof fn law_connect_keeps_one_source(links: Seq<Link>, link: Link)
    requires
        one_source_each(links),
    ensures
        one_source_each(
            links.filter(
                |other: Link| !(other.to == link.to && other.to_port == link.to_port),
            ).push(link),
        ),
{
    lemma_filter_one_source(
        links,
        |other: Link| !(other.to == link.to && other.to_port == link.to_port),
    );
}

/// Removing a node takes its links with it, keeps all others, and leaves every
/// input with one source at most.
pub proof fn law_remove_takes_links(links: Seq<Link>, id: NodeId, link: Link)
    requires
        one_source_each(links),
    ensures
        ({
            let after = links.filter(|link: Link| link.from != id && link.to != id);
            &&& one_source_each(after)
            &&& after.contains(link) <==> links.contains(link) && link.from != id && link.to != id
        }),
{
    let untouched = |link: Link| link.from != id && link.to != id;
    lemma_filter_one_source(links, untouched);
    links.filter_lemma(untouched);
}

/// Ids are not reused: a node that is added has an id that no node has, and the
/// counter stays above every id, when nodes are added and when they go.
pub proof fn law_ids_stay_fresh(nodes: Seq<Node>, next_id: NodeId, added: Node, removed: NodeId)
    requires
        ids_fresh(nodes, next_id),
        next_id < u32::MAX,
        added.id == next_id,
    ensures
        find(nodes, added.id) is None,
        ids_fresh(nodes.push(added), (next_id + 1) as u32),
        ids_fresh(nodes.filter(|node: Node| node.id != removed), next_id),
        find(nodes.filter(|node: Node| node.id != removed), removed) is None,
{
    lemma_find_from(nodes, added.id, 0);
    lemma_filter_fresh(nodes, next_id, |node: Node| node.id != removed);
    lemma_find_from(nodes.filter(|node: Node| node.id != removed), removed, 0);
}

proof fn lemma_filter_fresh(nodes: Seq<Node>, next_id: NodeId, kept: spec_fn(Node) -> bool)
    requires
        ids_fresh(nodes, next_id),
    ensures
        ids_fresh(nodes.filter(kept), next_id),
        forall|i: int|
            0 <= i < nodes.filter(kept).len() ==> nodes.contains(#[trigger] nodes.filter(kept)[i])
                && kept(nodes.filter(kept)[i]),
    decreases nodes.len(),
{
    reveal(Seq::filter);
    if nodes.len() > 0 {
        let front = nodes.drop_last();
        lemma_filter_fresh(front, next_id, kept);
        let below = front.filter(kept);
        assert forall|i: int| 0 <= i < below.len() implies nodes.contains(#[trigger] below[i])
            && below[i].id != nodes.last().id by {
            assert(front.contains(below[i]));
            let k = choose|k: int| 0 <= k < front.len() && front[k] == below[i];
            assert(nodes[k] == below[i]);
        }
        assert(nodes.contains(nodes.last()));
    }
}

/// Links whose ends agree stay where they are, and no others, when the buses
/// to show have been picked: pruning twice is pruning once.
pub proof fn law_prune_settles(graph: Graph)
    requires
        forall|i: int| 0 <= i < graph.nodes@.len() ==> !unpicked(#[trigger] graph.nodes@[i]),
    ensures
        ({
            let alive = |link: Link|
                graph.joins(link.from, link.from_port, link.to, link.to_port);
            let once = migrated_links(graph.nodes@, graph.links@, graph.nodes@.len()).filter(
                alive,
            );
            &&& forall|link: Link|
                #[trigger] once.contains(link) <==> graph.links@.contains(link) && alive(link)
            &&& migrated_links(graph.nodes@, once, graph.nodes@.len()).filter(alive) == once
        }),
{
    let alive = |link: Link| graph.joins(link.from, link.from_port, link.to, link.to_port);
    lemma_nothing_to_migrate(graph.nodes@, graph.links@, graph.nodes@.len());
    let once = graph.links@.filter(alive);
    lemma_nothing_to_migrate(graph.nodes@, once, graph.nodes@.len());
    graph.links@.filter_lemma(alive);
    lemma_filter_all(once, alive);
    assert forall|link: Link| #[trigger] once.contains(link) <==> graph.links@.contains(link)
        && alive(link) by {
        if once.contains(link) {
            let i = choose|i: int| 0 <= i < once.len() && once[i] == link;
            assert(alive(once[i]));
            lemma_filter_members(graph.links@, alive);
            assert(graph.links@.contains(once[i]));
        }
    }
}

proof fn lemma_filter_members(links: Seq<Link>, kept: spec_fn(Link) -> bool)
    ensures
        forall|i: int|
            0 <= i < links.filter(kept).len() ==> links.contains(#[trigger] links.filter(kept)[i]),
    decreases links.len(),
{
    reveal(Seq::filter);
    if links.len() > 0 {
        let front = links.drop_last();
        lemma_filter_members(front, kept);
        let below = front.filter(kept);
        assert forall|i: int| 0 <= i < below.len() implies links.contains(#[trigger] below[i]) by {
            assert(front.contains(below[i]));
            let k = choose|k: int| 0 <= k < front.len() && front[k] == below[i];
            assert(links[k] == below[i]);
        }
        assert(links.contains(links.last()));
    }
}

proof fn lemma_nothing_to_migrate(nodes: Seq<Node>, links: Seq<Link>, count: nat)
    requires
        count <= nodes.len(),
        forall|i: int| 0 <= i < nodes.len() ==> !unpicked(#[trigger] nodes[i]),
    ensures
        migrated_links(nodes, links, count) == links,
    decreases count,
{
    if count > 0 {
        lemma_nothing_to_migrate(nodes, links, (count - 1) as nat);
        assert(!unpicked(nodes[count - 1]));
    }
}

proof fn lemma_filter_all(links: Seq<Link>, kept: spec_fn(Link) -> bool)
    requires
        forall|i: int| 0 <= i < links.len() ==> kept(#[trigger] links[i]),
    ensures
        links.filter(kept) == links,
    decreases links.len(),
{
    reveal(Seq::filter);
    if links.len() > 0 {
        lemma_filter_all(links.drop_last(), kept);
        assert(links.drop_last().push(links.last()) =~= links);
    } else {
        assert(links.filter(kept) =~= links);
    }
}

/// A plugin that has picked its buses has something to show, so it never picks
/// again.
pub proof fn law_migrated_once(before: Node, after: Node, links: Seq<Link>)
    requires
        migrated_node(before, after, links),
    ensures
        !unpicked(after),
{
    if unpicked(before) {
        lemma_buses_used(links, before.id, bus_limit(before.kind->Plugin_0));
    }
}

/// Taking input sockets out of the middle of a node leaves the sources of the
/// sockets before them, and gives every later socket's source to the socket
/// that took its place.
pub proof fn law_drop_inputs_slides(
    links: Seq<Link>,
    node: NodeId,
    first: u8,
    count: u8,
    port: u8,
)
    requires
        count > 0,
    ensures
        ({
            let end = first + count;
            let after = links.filter(
                |link: Link| !(link.to == node && first <= link.to_port < end),
            ).map_values(|link: Link| slid_input(link, node, end, count));
            &&& port < first ==> source(after, node, port) == source(links, node, port)
            &&& port >= end ==> source(after, node, (port - count) as u8) == source(
                links,
                node,
                port,
            )
        }),
    decreases links.len(),
{
    reveal(Seq::filter);
    let end = first + count;
    let kept = |link: Link| !(link.to == node && first <= link.to_port < end);
    let slide = |link: Link| slid_input(link, node, end, count);
    if links.len() > 0 {
        let front = links.drop_last();
        let last = links.last();
        law_drop_inputs_slides(front, node, first, count, port);
        assert(front.push(last) =~= links);
        lemma_source_push(front, last, node, port, 0);
        let below = front.filter(kept).map_values(slide);
        if kept(last) {
            assert(links.filter(kept).map_values(slide) =~= below.push(slide(last)));
            lemma_source_push(below, slide(last), node, port, 0);
            if port >= end {
                lemma_source_push(below, slide(last), node, (port - count) as u8, 0);
            }
        }
    } else {
        assert(links.filter(kept).map_values(slide) =~= links);
    }
}

/// The same from the other end: a link that left a later output leaves the
/// output that took its place, and a link that left a socket that went is cut.
pub proof fn law_drop_outputs_slides(
    links: Seq<Link>,
    node: NodeId,
    first: u8,
    count: u8,
    to: NodeId,
    port: u8,
)
    requires
        count > 0,
        one_source_each(links),
    ensures
        ({
            let end = first + count;
            let after = links.filter(
                |link: Link| !(link.from == node && first <= link.from_port < end),
            ).map_values(|link: Link| slid_output(link, node, end, count));
            source(after, to, port) == match source(links, to, port) {
                Some((from, from_port)) => if from != node || from_port < first {
                    Some((from, from_port))
                } else if from_port < end {
                    None
                } else {
                    Some((from, (from_port - count) as u8))
                },
                None => None,
            }
        }),
    decreases links.len(),
{
    reveal(Seq::filter);
    let end = first + count;
    let kept = |link: Link| !(link.from == node && first <= link.from_port < end);
    let slide = |link: Link| slid_output(link, node, end, count);
    if links.len() > 0 {
        let front = links.drop_last();
        let last = links.last();
        law_drop_outputs_slides(front, node, first, count, to, port);
        assert(front.push(last) =~= links);
        lemma_source_push(front, last, to, port, 0);
        lemma_source_from(front, to, port, 0);
        if source(front, to, port) is Some {
            let i = choose|i: int|
                0 <= i < front.len() && (#[trigger] front[i]).to == to && front[i].to_port == port;
            assert(links[i].to == to);
            assert(!(last.to == to && last.to_port == port));
        }
        let below = front.filter(kept).map_values(slide);
        if kept(last) {
            assert(links.filter(kept).map_values(slide) =~= below.push(slide(last)));
            lemma_source_push(below, slide(last), to, port, 0);
        }
    } else {
        assert(links.filter(kept).map_values(slide) =~= links);
    }
}

} // verus!
