use audio_graph_engine::compile::compile;
use audio_graph_engine::error::CompileError;
use audio_graph_engine::graph::{Graph, Link};
use audio_graph_engine::ir::{
    MathOp, NodeId, Rate, Waveform, MAX_AUDIO_DELAY_LINES, MAX_AUDIO_LANES, MAX_BUFFERS,
    MAX_BUFFER_CHANNELS, MAX_COMPENSATION, MAX_DELAY_LINES, MAX_GRAPH_PARAMS, MAX_LATCHES,
    MAX_LFOS, MAX_NOTE_BUFS, MAX_NOTE_EMITS, MAX_REGISTERS,
};
use audio_graph_engine::nodes::{
    AudioIn, AudioOut, CcIn, Constant, DelayRead, DelayWrite, Lfo, Math, Mix, NodeKind, NoteMute,
    ParamPort, ParamToCc, Plugin, PluginPorts, SlotIn,
};
use audio_graph_engine::number::{Real, Sample};
use audio_graph_engine::port::PortType;

const SLOTS: usize = 32;

/// Where a node is drawn, which no test here looks at.
const AT: [Sample; 2] = [Sample { bits: 0 }; 2];

fn real_of(value: f64) -> Real {
    Real {
        bits: value.to_bits(),
    }
}

fn plugin(graph: &mut Graph, instance: usize, ports: PluginPorts) -> NodeId {
    graph.add(NodeKind::Plugin(Plugin { instance, ports }), AT)
}

/// A plugin with so many parameters, and nothing else.
fn params(graph: &mut Graph, instance: usize, count: usize) -> NodeId {
    let list = (0..count as u32)
        .map(|id| ParamPort {
            id,
            name: "p".into(),
        })
        .collect();
    plugin(
        graph,
        instance,
        PluginPorts {
            params: list,
            ..PluginPorts::default()
        },
    )
}

fn constant(graph: &mut Graph) -> NodeId {
    graph.add(
        NodeKind::Constant(Constant {
            value: real_of(0.5),
        }),
        AT,
    )
}

fn always_on(graph: &mut Graph, kind: NodeKind) -> NodeId {
    let id = graph.add(kind, AT);
    graph.node_mut(id).unwrap().always_on = true;
    id
}

fn write(graph: &mut Graph, line: u32, ty: PortType) -> NodeId {
    graph.add(NodeKind::DelayWrite(DelayWrite { line, ty }), AT)
}

fn failure(graph: &Graph) -> CompileError {
    match compile(graph, SLOTS) {
        Ok(_) => panic!("the graph compiles"),
        Err(error) => error,
    }
}

fn too_large(graph: &Graph, of: &str, most: usize) {
    match failure(graph) {
        CompileError::TooLarge { what, limit } => {
            assert_eq!(what, of);
            assert_eq!(limit, most);
        }
        other => panic!("{}", other.message()),
    }
    assert_eq!(
        failure(graph).message(),
        format!("too many {of} in one graph (limit {most})")
    );
}

#[test]
fn a_loop_names_a_node_on_it() {
    let mut graph = Graph::new();
    let add = NodeKind::Math(Math {
        op: MathOp::Add,
        b: real_of(0.0),
    });
    let x = graph.add(add.clone(), AT);
    let y = always_on(&mut graph, add);
    graph.connect(x, 0, y, 0);
    graph.connect(y, 0, x, 0);
    match failure(&graph) {
        CompileError::Cycle { node } => {
            assert!(node == x || node == y);
            assert_eq!(
                failure(&graph).message(),
                format!("the graph loops back on itself at node {node}")
            );
        }
        other => panic!("{}", other.message()),
    }
}

/// A loop that feeds nothing is not part of the program, so it is no error.
#[test]
fn a_loop_nothing_hears_is_left_out() {
    let mut graph = Graph::new();
    let add = NodeKind::Math(Math {
        op: MathOp::Add,
        b: real_of(0.0),
    });
    let x = graph.add(add.clone(), AT);
    let y = graph.add(add, AT);
    graph.connect(x, 0, y, 0);
    graph.connect(y, 0, x, 0);
    assert!(compile(&graph, SLOTS).unwrap().is_empty());
}

/// The editor counts slots, sockets and lines from one.
#[test]
fn messages_count_from_one() {
    let mut graph = Graph::new();
    let node = always_on(&mut graph, NodeKind::SlotIn(SlotIn { slot: 32 }));
    assert!(matches!(
        failure(&graph),
        CompileError::BadSlot { slot: 32, .. }
    ));
    assert_eq!(
        failure(&graph).message(),
        format!("node {node} names slot 33, which does not exist")
    );

    let mut graph = Graph::new();
    let from = constant(&mut graph);
    let to = graph.add(
        NodeKind::AudioOut(AudioOut {
            bus: 0,
            channels: 2,
        }),
        AT,
    );
    graph.links.push(Link {
        from,
        from_port: 0,
        to,
        to_port: 0,
    });
    assert!(matches!(
        failure(&graph),
        CompileError::TypeMismatch { port: 0, .. }
    ));
    assert_eq!(
        failure(&graph).message(),
        format!("input 1 of node {to} is fed something of another type")
    );

    let mut graph = Graph::new();
    write(&mut graph, 9, PortType::Param);
    write(&mut graph, 9, PortType::Param);
    assert!(matches!(
        failure(&graph),
        CompileError::DuplicateDelayWrite { line: 9 }
    ));
    assert_eq!(
        failure(&graph).message(),
        "two nodes both write delay line 10"
    );

    let mut graph = Graph::new();
    write(&mut graph, 9, PortType::Param);
    graph.add(
        NodeKind::DelayRead(DelayRead {
            line: 9,
            ty: PortType::stereo(),
            max_time: real_of(1.0),
            time: real_of(0.5),
        }),
        AT,
    );
    assert!(matches!(
        failure(&graph),
        CompileError::DelayTypeMismatch { line: 9 }
    ));
    assert_eq!(
        failure(&graph).message(),
        "the two halves of delay line 10 carry different things"
    );
}

/// The last slot and the last line number have a one after them.
#[test]
fn messages_do_not_overflow() {
    let mut graph = Graph::new();
    always_on(
        &mut graph,
        NodeKind::SlotIn(SlotIn { slot: usize::MAX }),
    );
    assert_eq!(
        failure(&graph).message(),
        "node 0 names slot 18446744073709551616, which does not exist"
    );

    let mut graph = Graph::new();
    write(&mut graph, u32::MAX, PortType::Param);
    write(&mut graph, u32::MAX, PortType::Param);
    assert_eq!(
        failure(&graph).message(),
        "two nodes both write delay line 4294967296"
    );
}

#[test]
fn a_note_delay_line_is_not_there_yet() {
    let mut graph = Graph::new();
    write(&mut graph, 0, PortType::Note);
    assert!(matches!(
        failure(&graph),
        CompileError::NotYet {
            what: "note delay lines"
        }
    ));
    assert_eq!(
        failure(&graph).message(),
        "note delay lines is not implemented yet"
    );
}

/// A link that makes no sense is found before a line that makes none, and a line
/// before a loop.
#[test]
fn the_first_thing_wrong_is_what_is_reported() {
    let mut graph = Graph::new();
    let add = NodeKind::Math(Math {
        op: MathOp::Add,
        b: real_of(0.0),
    });
    let other = graph.add(add.clone(), AT);
    let loops = always_on(&mut graph, add);
    graph.connect(loops, 0, other, 0);
    graph.connect(other, 0, loops, 0);
    assert!(matches!(failure(&graph), CompileError::Cycle { .. }));
    write(&mut graph, 0, PortType::Note);
    assert!(matches!(failure(&graph), CompileError::NotYet { .. }));
    graph.links.push(Link {
        from: loops,
        from_port: 7,
        to: loops,
        to_port: 1,
    });
    assert!(matches!(failure(&graph), CompileError::TypeMismatch { .. }));
}

#[test]
fn there_is_room_for_so_many_registers_and_no_more() {
    let mut graph = Graph::new();
    for _ in 0..MAX_REGISTERS {
        always_on(
            &mut graph,
            NodeKind::Constant(Constant {
                value: real_of(0.5),
            }),
        );
    }
    assert_eq!(compile(&graph, SLOTS).unwrap().registers, MAX_REGISTERS);
    always_on(
        &mut graph,
        NodeKind::Constant(Constant {
            value: real_of(0.5),
        }),
    );
    too_large(&graph, "nodes", MAX_REGISTERS);
}

#[test]
fn there_is_room_for_so_many_oscillators_and_no_more() {
    let mut graph = Graph::new();
    let lfo = NodeKind::Lfo(Lfo {
        waveform: Waveform::Sine,
        rate: Rate::Hz(real_of(1.0)),
        phase: real_of(0.0),
        depth: real_of(0.5),
        offset: real_of(0.5),
    });
    for _ in 0..MAX_LFOS {
        always_on(&mut graph, lfo.clone());
    }
    assert_eq!(compile(&graph, SLOTS).unwrap().lfo_nodes.len(), MAX_LFOS);
    always_on(&mut graph, lfo);
    too_large(&graph, "LFOs", MAX_LFOS);
}

#[test]
fn there_is_room_for_so_many_latches_and_no_more() {
    let mut graph = Graph::new();
    let notes = graph.add(NodeKind::NoteIn, AT);
    for _ in 0..MAX_LATCHES + 1 {
        assert!(compile(&graph, SLOTS).is_ok());
        let wheel = always_on(&mut graph, NodeKind::CcIn(CcIn::default()));
        graph.connect(notes, 0, wheel, 0);
    }
    too_large(&graph, "key switches", MAX_LATCHES);
}

#[test]
fn there_is_room_for_so_many_delay_lines_and_no_more() {
    let mut graph = Graph::new();
    for line in 0..=MAX_DELAY_LINES as u32 {
        assert!(compile(&graph, SLOTS).is_ok());
        write(&mut graph, line, PortType::Param);
    }
    too_large(&graph, "delay lines", MAX_DELAY_LINES);
}

#[test]
fn there_is_room_for_so_many_audio_delay_lines_and_no_more() {
    let mut graph = Graph::new();
    let input = graph.add(
        NodeKind::AudioIn(AudioIn {
            bus: 0,
            channels: 2,
        }),
        AT,
    );
    for line in 0..=MAX_AUDIO_DELAY_LINES as u32 {
        assert!(compile(&graph, SLOTS).is_ok());
        let node = write(&mut graph, line, PortType::stereo());
        graph.connect(input, 0, node, 0);
    }
    too_large(&graph, "audio delay lines", MAX_AUDIO_DELAY_LINES);
}

#[test]
fn there_is_room_for_so_many_driven_parameters_and_no_more() {
    let mut graph = Graph::new();
    let value = constant(&mut graph);
    let node = params(&mut graph, 0, MAX_GRAPH_PARAMS + 1);
    for port in 0..=MAX_GRAPH_PARAMS as u8 {
        assert!(compile(&graph, SLOTS).is_ok());
        graph.connect(value, 0, node, port);
    }
    too_large(&graph, "graph-driven parameters", MAX_GRAPH_PARAMS);
}

#[test]
fn there_is_room_for_so_many_driven_gains_and_no_more() {
    let mut graph = Graph::new();
    let value = constant(&mut graph);
    let mix = graph.add(
        NodeKind::Mix(Mix {
            channels: 2,
            inputs: MAX_AUDIO_LANES as u8 + 1,
            gains: Vec::new(),
        }),
        AT,
    );
    graph.node_mut(mix).unwrap().always_on = true;
    for input in 0..=MAX_AUDIO_LANES as u8 {
        assert!(compile(&graph, SLOTS).is_ok());
        graph.connect(value, 0, mix, 2 * input + 1);
    }
    too_large(&graph, "automated delay times and gains", MAX_AUDIO_LANES);
}

#[test]
fn there_is_room_for_so_many_note_buffers_and_no_more() {
    let mut graph = Graph::new();
    let notes = graph.add(NodeKind::NoteIn, AT);
    let mut last = notes;
    for _ in 0..MAX_NOTE_BUFS {
        assert!(compile(&graph, SLOTS).is_ok());
        let mute = always_on(&mut graph, NodeKind::NoteMute(NoteMute { keys: vec![60] }));
        graph.connect(last, 0, mute, 0);
        last = mute;
    }
    let synth = plugin(
        &mut graph,
        0,
        PluginPorts {
            audio_out: vec![2],
            accepts_notes: true,
            ..PluginPorts::default()
        },
    );
    graph.node_mut(synth).unwrap().always_on = true;
    graph.connect(last, 0, synth, 0);
    too_large(&graph, "note buffers", MAX_NOTE_BUFS);
}

#[test]
fn there_is_room_for_so_many_buffers_and_no_more() {
    let mut graph = Graph::new();
    let input = graph.add(
        NodeKind::AudioIn(AudioIn {
            bus: 0,
            channels: 2,
        }),
        AT,
    );
    let mix = graph.add(
        NodeKind::Mix(Mix {
            channels: 2,
            inputs: MAX_BUFFERS as u8,
            gains: Vec::new(),
        }),
        AT,
    );
    graph.node_mut(mix).unwrap().always_on = true;
    for instance in 0..MAX_BUFFERS {
        let node = plugin(
            &mut graph,
            instance,
            PluginPorts {
                audio_in: vec![2],
                audio_out: vec![2],
                ..PluginPorts::default()
            },
        );
        graph.connect(input, 0, node, 0);
        graph.connect(node, 0, mix, 2 * instance as u8);
    }
    too_large(&graph, "audio buffers", MAX_BUFFERS);
}

#[test]
fn a_region_wider_than_a_buffer_is_refused() {
    let mut graph = Graph::new();
    let node = plugin(
        &mut graph,
        0,
        PluginPorts {
            audio_out: vec![MAX_BUFFER_CHANNELS as u16 + 1],
            ..PluginPorts::default()
        },
    );
    graph.node_mut(node).unwrap().always_on = true;
    too_large(&graph, "channels in one buffer", MAX_BUFFER_CHANNELS);
}

#[test]
fn a_delay_no_compensation_makes_up_for_is_refused() {
    let compensated = |latency: u32| {
        let mut graph = Graph::new();
        let input = graph.add(
            NodeKind::AudioIn(AudioIn {
                bus: 0,
                channels: 2,
            }),
            AT,
        );
        let slow = plugin(
            &mut graph,
            0,
            PluginPorts {
                audio_in: vec![2],
                audio_out: vec![2],
                latency,
                ..PluginPorts::default()
            },
        );
        let mix = graph.add(
            NodeKind::Mix(Mix {
                channels: 2,
                inputs: 2,
                gains: Vec::new(),
            }),
            AT,
        );
        graph.node_mut(mix).unwrap().always_on = true;
        graph.connect(input, 0, slow, 0);
        graph.connect(slow, 0, mix, 0);
        graph.connect(input, 0, mix, 2);
        graph
    };
    assert!(compile(&compensated(MAX_COMPENSATION as u32 - 1), SLOTS).is_ok());
    too_large(
        &compensated(MAX_COMPENSATION as u32),
        "samples of delay compensation",
        MAX_COMPENSATION,
    );
}

#[test]
fn there_is_room_for_so_many_controllers_and_no_more() {
    let mut graph = Graph::new();
    let value = constant(&mut graph);
    let mut last = None;
    for cc in 0..MAX_NOTE_EMITS as u8 + 2 {
        let node = always_on(
            &mut graph,
            NodeKind::ParamToCc(ParamToCc { channel: 0, cc }),
        );
        graph.connect(value, 0, node, 0);
        if let Some(from) = last {
            assert!(compile(&graph, SLOTS).is_ok());
            graph.connect(from, 0, node, 1);
        }
        last = Some(node);
    }
    assert!(matches!(failure(&graph), CompileError::TooLarge { .. }));
}
