use audio_graph_engine::graph::Graph;
use audio_graph_engine::ir::{MathOp, NodeId};
use audio_graph_engine::nodes::{
    AudioIn, AudioOut, Constant, DelayRead, DelayWrite, Math, Mix, NodeKind, ParamPort, Plugin,
    PluginPorts, RangeMap,
};
use audio_graph_engine::number::{Real, Sample};
use audio_graph_engine::port::PortType;

/// Where a node is drawn, which no test here looks at.
const AT: [Sample; 2] = [Sample { bits: 0 }; 2];

fn real_of(value: f64) -> Real {
    Real {
        bits: value.to_bits(),
    }
}

fn reals(values: &[f64]) -> Vec<Real> {
    values.iter().map(|&value| real_of(value)).collect()
}

/// A node with one parameter socket, for the tests that only need
/// something to wire *into*.
fn param_input(graph: &mut Graph) -> NodeId {
    graph.add(
        NodeKind::Math(Math {
            op: MathOp::Add,
            b: real_of(0.0),
        }),
        AT,
    )
}
#[test]
fn an_input_only_ever_has_one_source() {
    let mut graph = Graph::new();
    let a = graph.add(NodeKind::Constant(Constant { value: real_of(1.0) }), AT);
    let b = graph.add(NodeKind::Constant(Constant { value: real_of(2.0) }), AT);
    let out = param_input(&mut graph);

    graph.connect(a, 0, out, 0);
    graph.connect(b, 0, out, 0);

    assert_eq!(graph.links.len(), 1);
    assert_eq!(graph.source_of(out, 0), Some((b, 0)));
}

#[test]
fn removing_a_node_takes_its_links_with_it() {
    let mut graph = Graph::new();
    let a = graph.add(NodeKind::Constant(Constant { value: real_of(1.0) }), AT);
    let out = param_input(&mut graph);
    graph.connect(a, 0, out, 0);

    graph.remove(a);
    assert!(graph.links.is_empty());
    assert!(graph.source_of(out, 0).is_none());
}

#[test]
fn ids_are_not_reused_after_a_delete() {
    let mut graph = Graph::new();
    let a = graph.add(NodeKind::Constant(Constant { value: real_of(1.0) }), AT);
    graph.remove(a);
    let b = graph.add(NodeKind::Constant(Constant { value: real_of(1.0) }), AT);
    assert_ne!(a, b);
}

/// A patch saved before `audio_out_shown` existed keeps the buses it
/// wired and loses the rest - which is the difference between reopening
/// Kontakt as a node and reopening it as a column of sixty-four sockets.
#[test]
fn an_old_patch_keeps_only_the_output_buses_it_wired() {
    let mut graph = Graph::new();
    let plugin = graph.add(
        NodeKind::Plugin(Plugin {
            instance: 0,
            ports: PluginPorts {
                audio_in: vec![2],
                audio_out: vec![2; 8],
                // No picks: the file predates the field.
                audio_out_shown: Vec::new(),
                ..PluginPorts::default()
            },
        }),
        AT,
    );
    let sink = graph.add(
        NodeKind::Mix(Mix {
            channels: 2,
            inputs: 2,
            gains: reals(&[0.0, 0.0]),
        }),
        AT,
    );
    graph.connect(plugin, 5, sink, 0);

    graph.prune();

    let NodeKind::Plugin(node) = &graph.node(plugin).unwrap().kind else {
        unreachable!()
    };
    assert_eq!(
        node.ports.audio_out_shown,
        vec![0, 5],
        "the main bus and the one that was wired"
    );
    let link = graph.links.iter().find(|l| l.from == plugin).unwrap();
    assert_eq!(
        link.from_port, 1,
        "bus 5 is the second socket now, and the link says so"
    );
}

#[test]
fn prune_drops_links_that_no_longer_make_sense() {
    let mut graph = Graph::new();
    let a = graph.add(NodeKind::Constant(Constant { value: real_of(1.0) }), AT);
    let math = graph.add(
        NodeKind::Math(Math {
            op: MathOp::Add,
            b: real_of(0.0),
        }),
        AT,
    );
    graph.connect(a, 0, math, 1);

    // Something the user could do in the editor: turn a two-input node into
    // a one-input one. The link to input 1 is now meaningless.
    graph.node_mut(math).unwrap().kind = NodeKind::RangeMap(RangeMap {
        in_lo: real_of(0.0),
        in_hi: real_of(1.0),
        out_lo: real_of(0.0),
        out_hi: real_of(1.0),
        clamp: true,
    });
    graph.prune();
    assert!(graph.links.is_empty());
}

#[test]
fn ports_only_join_ports_of_the_same_type() {
    let mut graph = Graph::new();
    let audio = graph.add(
        NodeKind::AudioIn(AudioIn {
            bus: 0,
            channels: 2,
        }),
        AT,
    );
    let slot = param_input(&mut graph);
    let speaker = graph.add(
        NodeKind::AudioOut(AudioOut {
            bus: 0,
            channels: 2,
        }),
        AT,
    );

    graph.connect(audio, 0, slot, 0);
    assert!(graph.links.is_empty(), "audio does not fit a param socket");

    graph.connect(audio, 0, speaker, 0);
    assert_eq!(graph.links.len(), 1);
}

/// Audio joins audio whatever the widths are, and the compiler adapts them
/// explicitly.
///
/// Real plugins have mono sidechains, and nothing in the graph converts:
/// refusing the link would teach the user nothing and leave the socket
/// unusable.
#[test]
fn audio_of_different_widths_still_connects() {
    let mut graph = Graph::new();
    let mono = graph.add(
        NodeKind::AudioIn(AudioIn {
            bus: 0,
            channels: 1,
        }),
        AT,
    );
    let stereo = graph.add(
        NodeKind::AudioOut(AudioOut {
            bus: 0,
            channels: 2,
        }),
        AT,
    );
    graph.connect(mono, 0, stereo, 0);
    assert_eq!(graph.links.len(), 1);
}

/// What the widths rule does *not* do: audio and parameters stay apart.
#[test]
fn audio_still_does_not_connect_to_a_parameter() {
    let mut graph = Graph::new();
    let audio = graph.add(
        NodeKind::AudioIn(AudioIn {
            bus: 0,
            channels: 2,
        }),
        AT,
    );
    let slot = param_input(&mut graph);
    graph.connect(audio, 0, slot, 0);
    assert!(graph.links.is_empty());
}

/// The two halves of a delay line are joined by `line`, never by a link, so
/// neither has a socket facing the other.
#[test]
fn a_delay_has_no_edge_between_its_halves() {
    let write = NodeKind::DelayWrite(DelayWrite {
        line: 0,
        ty: PortType::Param,
    });
    let read = NodeKind::DelayRead(DelayRead {
        line: 0,
        ty: PortType::Param,
        max_time: real_of(1.0),
        time: real_of(0.5),
    });
    assert!(write.output_ports().is_empty());
    // The read has one input, but it is the delay time and it is a
    // param - never the line's own signal, which is what would make an edge
    // between the halves and put a cycle back into the graph.
    assert_eq!(read.input_ports().len(), 1);
    assert!(matches!(read.input_ports()[0].ty, PortType::Param));
}

#[test]
fn a_plugin_node_takes_its_shape_from_what_it_found() {
    let ports = PluginPorts {
        audio_in: vec![2, 2],
        audio_out: vec![2],
        audio_out_shown: Vec::new(),
        accepts_notes: true,
        params: vec![ParamPort {
            id: 7,
            name: "Cutoff".into(),
        }],
        latency: 0,
    };
    let node = NodeKind::Plugin(Plugin { instance: 0, ports });
    let inputs = node.input_ports();
    let names: Vec<&str> = inputs.iter().map(|p| p.name.as_str()).collect();
    assert_eq!(names, ["in", "sidechain", "notes", "Cutoff"]);
    assert_eq!(inputs[1].ty, PortType::stereo());
    assert_eq!(inputs[3].ty, PortType::Param);
    assert_eq!(node.output_ports().len(), 1);
}

/// A sub-plugin swapped for one with fewer buses leaves links pointing at
/// sockets that no longer exist, or that changed type. Those wires
/// go; the rest of the patch stays.
#[test]
fn swapping_a_plugin_drops_only_the_links_that_stopped_making_sense() {
    let mut graph = Graph::new();
    let source = graph.add(
        NodeKind::AudioIn(AudioIn {
            bus: 0,
            channels: 2,
        }),
        AT,
    );
    let plugin = graph.add(
        NodeKind::Plugin(Plugin {
            instance: 0,
            ports: PluginPorts {
                audio_in: vec![2, 2],
                audio_out: vec![2],
                audio_out_shown: Vec::new(),
                ..PluginPorts::default()
            },
        }),
        AT,
    );
    graph.connect(source, 0, plugin, 0);
    graph.connect(source, 0, plugin, 1);
    assert_eq!(graph.links.len(), 2);

    // The replacement has no sidechain.
    graph.node_mut(plugin).unwrap().kind = NodeKind::Plugin(Plugin {
        instance: 0,
        ports: PluginPorts {
            audio_in: vec![2],
            audio_out: vec![2],
            audio_out_shown: Vec::new(),
            ..PluginPorts::default()
        },
    });
    graph.prune();
    assert_eq!(graph.links.len(), 1, "the main input link survives");
    assert_eq!(graph.source_of(plugin, 0), Some((source, 0)));
}

/// Taking one of a `Mix`'s inputs away is two sockets going out of the
/// middle of the list, and every link after them means a socket one lower
/// than it did. Nothing else notices: `prune` would leave these links
/// where they were, still pointing at sockets of the right type and the
/// wrong index, and the patch would quietly mix the wrong things.
#[test]
fn removing_an_input_slides_the_links_after_it_down() {
    let mut graph = Graph::new();
    let a = graph.add(
        NodeKind::AudioIn(AudioIn {
            bus: 0,
            channels: 2,
        }),
        AT,
    );
    let b = graph.add(
        NodeKind::AudioIn(AudioIn {
            bus: 1,
            channels: 2,
        }),
        AT,
    );
    let mix = graph.add(
        NodeKind::Mix(Mix {
            channels: 2,
            inputs: 3,
            gains: reals(&[0.0, 0.0, 0.0]),
        }),
        AT,
    );
    // Signal, gain, signal, gain: input 2 is socket 2, input 3 is socket 4.
    graph.connect(a, 0, mix, 2);
    graph.connect(b, 0, mix, 4);

    // The user takes input 2 away - the pair at sockets 2 and 3.
    let NodeKind::Mix(node) = &mut graph.node_mut(mix).unwrap().kind else {
        unreachable!()
    };
    let count = node.remove_input(2);
    assert_eq!(count, 2, "an input is a signal and its gain");
    graph.drop_inputs(mix, 2, count);

    assert_eq!(
        graph.source_of(mix, 2),
        Some((b, 0)),
        "input 3 became input 2"
    );
    assert_eq!(graph.links.len(), 1, "what fed the removed input is cut");
    assert_eq!(graph.node(mix).unwrap().kind.input_ports().len(), 4);
}

/// The same for a plugin node's parameter sockets, which are one socket
/// each rather than a pair - and which sit after the audio and note ones,
/// so the sockets before them must not move.
#[test]
fn removing_a_parameter_socket_leaves_the_audio_ones_alone() {
    let mut graph = Graph::new();
    let audio = graph.add(
        NodeKind::AudioIn(AudioIn {
            bus: 0,
            channels: 2,
        }),
        AT,
    );
    let value = graph.add(NodeKind::Constant(Constant { value: real_of(0.5) }), AT);
    let plugin = graph.add(
        NodeKind::Plugin(Plugin {
            instance: 0,
            ports: PluginPorts {
                audio_in: vec![2],
                audio_out: vec![2],
                audio_out_shown: Vec::new(),
                params: vec![
                    ParamPort {
                        id: 1,
                        name: "Cutoff".into(),
                    },
                    ParamPort {
                        id: 2,
                        name: "Resonance".into(),
                    },
                ],
                ..PluginPorts::default()
            },
        }),
        AT,
    );
    graph.connect(audio, 0, plugin, 0);
    graph.connect(value, 0, plugin, 2);

    // Cutoff, the first of the two parameter sockets, is socket 1.
    let NodeKind::Plugin(node) = &mut graph.node_mut(plugin).unwrap().kind else {
        unreachable!()
    };
    let count = node.remove_input(1);
    assert_eq!(count, 1);
    graph.drop_inputs(plugin, 1, count);

    assert_eq!(
        graph.source_of(plugin, 0),
        Some((audio, 0)),
        "audio is untouched"
    );
    assert_eq!(
        graph.source_of(plugin, 1),
        Some((value, 0)),
        "Resonance moved into Cutoff's place, and its link with it"
    );
}
