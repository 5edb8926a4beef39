use audio_graph_engine::compile::compile;
use audio_graph_engine::error::CompileError;
use audio_graph_engine::graph::{Graph, Link};
use audio_graph_engine::ir::{MathOp, NodeId, Op, Operand, Rate, Reg, Waveform, MAX_REGISTERS};
use audio_graph_engine::nodes::{
    AudioIn, Constant, DelayRead, DelayWrite, Lfo, Math, NodeKind, ParamPort, Plugin, PluginPorts,
    SlotIn,
};
use audio_graph_engine::number::{Real, Sample};
use audio_graph_engine::port::PortType;

/// Where a node is drawn, which no test here looks at.
const AT: [Sample; 2] = [Sample { bits: 0 }; 2];

fn real_of(value: f64) -> Real {
    Real {
        bits: value.to_bits(),
    }
}

const SLOTS: usize = 32;

/// Somewhere for a parameter chain to go.
///
/// A graph whose values reach nothing is pruned, so every test that wants to
/// see an op emitted needs a sink. A parameter socket is used rather than a
/// slot because, unlike a slot, it does not fight the DAW for the lane.
fn param_sink(graph: &mut Graph) -> NodeId {
    graph.add(
        NodeKind::Plugin(Plugin {
            instance: 0,
            ports: PluginPorts {
                params: vec![ParamPort {
                    id: 0,
                    name: "p".into(),
                }],
                ..PluginPorts::default()
            },
        }),
        AT,
    )
}

#[test]
fn an_empty_graph_compiles_to_an_empty_program() {
    let program = compile(&Graph::new(), SLOTS).unwrap();
    assert!(program.is_empty());
    assert_eq!(program.registers, 0);
}

#[test]
fn only_what_feeds_an_output_is_compiled() {
    let mut graph = Graph::new();
    let used = graph.add(NodeKind::Constant(Constant { value: real_of(0.5) }), AT);
    let out = param_sink(&mut graph);
    graph.connect(used, 0, out, 0);
    // Dropped on the canvas and wired to nothing.
    graph.add(NodeKind::Constant(Constant { value: real_of(0.25) }), AT);
    graph.add(
        NodeKind::Lfo(Lfo {
            waveform: Waveform::Sine,
            rate: Rate::Hz(real_of(1.0)),
            phase: real_of(0.0),
            depth: real_of(0.5),
            offset: real_of(0.5),
        }),
        AT,
    );

    let program = compile(&graph, SLOTS).unwrap();
    assert_eq!(
        program.ops.len(),
        1,
        "the unwired nodes cost the audio thread nothing"
    );
    assert!(program.lfo_nodes.is_empty());
}

/// An analyser produces nothing anyone reads, so the pruning rule would
/// delete it - the always-on toggle is how the user says otherwise.
#[test]
fn an_always_on_node_is_compiled_with_nothing_downstream() {
    let mut graph = Graph::new();
    let lfo = graph.add(
        NodeKind::Lfo(Lfo {
            waveform: Waveform::Sine,
            rate: Rate::Hz(real_of(1.0)),
            phase: real_of(0.0),
            depth: real_of(0.5),
            offset: real_of(0.5),
        }),
        AT,
    );
    assert!(
        compile(&graph, SLOTS).unwrap().is_empty(),
        "unwired, it costs nothing"
    );

    graph.node_mut(lfo).unwrap().always_on = true;
    let program = compile(&graph, SLOTS).unwrap();
    assert_eq!(program.ops.len(), 1);
    assert_eq!(program.lfo_nodes.len(), 1, "and it keeps its phase");
}

/// Whatever an always-on node reads has to be compiled too.
#[test]
fn an_always_on_node_pulls_its_inputs_in_with_it() {
    let mut graph = Graph::new();
    let source = graph.add(NodeKind::Constant(Constant { value: real_of(0.5) }), AT);
    let sink = graph.add(
        NodeKind::Math(Math {
            op: MathOp::Multiply,
            b: real_of(2.0),
        }),
        AT,
    );
    graph.connect(source, 0, sink, 0);
    graph.node_mut(sink).unwrap().always_on = true;

    let program = compile(&graph, SLOTS).unwrap();
    assert_eq!(program.ops.len(), 2, "the constant came with it");
}

#[test]
fn every_op_reads_only_registers_already_written() {
    let mut graph = Graph::new();
    let a = graph.add(NodeKind::Constant(Constant { value: real_of(0.5) }), AT);
    let b = graph.add(NodeKind::SlotIn(SlotIn { slot: 2 }), AT);
    let sum = graph.add(
        NodeKind::Math(Math {
            op: MathOp::Add,
            b: real_of(0.0),
        }),
        AT,
    );
    let out = param_sink(&mut graph);
    // Wired back to front on purpose: creation order must not matter.
    graph.connect(sum, 0, out, 0);
    graph.connect(b, 0, sum, 1);
    graph.connect(a, 0, sum, 0);

    let program = compile(&graph, SLOTS).unwrap();
    let mut written = vec![false; program.registers];
    for op in &program.ops {
        for read in reads(op) {
            assert!(
                written[read as usize],
                "op reads register {read} before it is written"
            );
        }
        if let Some(out) = writes(op) {
            written[out as usize] = true;
        }
    }
}

#[test]
fn a_cycle_is_reported_rather_than_hung_on() {
    let mut graph = Graph::new();
    let x = graph.add(
        NodeKind::Math(Math {
            op: MathOp::Add,
            b: real_of(1.0),
        }),
        AT,
    );
    let y = graph.add(
        NodeKind::Math(Math {
            op: MathOp::Add,
            b: real_of(1.0),
        }),
        AT,
    );
    let out = param_sink(&mut graph);
    graph.connect(x, 0, y, 0);
    graph.connect(y, 0, x, 0);
    graph.connect(y, 0, out, 0);

    assert!(matches!(
        compile(&graph, SLOTS),
        Err(CompileError::Cycle { .. })
    ));
}

#[test]
fn a_slot_outside_the_table_is_refused() {
    let mut graph = Graph::new();
    let read = graph.add(NodeKind::SlotIn(SlotIn { slot: 99 }), AT);
    let out = param_sink(&mut graph);
    graph.connect(read, 0, out, 0);
    assert!(matches!(
        compile(&graph, SLOTS),
        Err(CompileError::BadSlot { .. })
    ));
}

#[test]
fn a_graph_bigger_than_the_audio_thread_can_hold_is_refused() {
    let mut graph = Graph::new();
    let out = param_sink(&mut graph);
    let mut last = graph.add(NodeKind::Constant(Constant { value: real_of(0.0) }), AT);
    for _ in 0..MAX_REGISTERS + 8 {
        let next = graph.add(
            NodeKind::Math(Math {
                op: MathOp::Add,
                b: real_of(1.0),
            }),
            AT,
        );
        graph.connect(last, 0, next, 0);
        last = next;
    }
    graph.connect(last, 0, out, 0);
    assert!(matches!(
        compile(&graph, SLOTS),
        Err(CompileError::TooLarge { .. })
    ));
}

/// The point of splitting a delay into two halves is that the existing
/// cycle check needs no exception for it. This is the same graph as
/// `a_cycle_is_reported_rather_than_hung_on`, with the loop closed through a
/// delay line instead of directly.
#[test]
fn a_loop_closed_through_a_delay_is_not_a_cycle() {
    let mut graph = Graph::new();
    let read = graph.add(
        NodeKind::DelayRead(DelayRead {
            line: 0,
            ty: PortType::Param,
            max_time: real_of(1.0),
            time: real_of(0.25),
        }),
        AT,
    );
    let scale = graph.add(
        NodeKind::Math(Math {
            op: MathOp::Multiply,
            b: real_of(0.5),
        }),
        AT,
    );
    let write = graph.add(
        NodeKind::DelayWrite(DelayWrite {
            line: 0,
            ty: PortType::Param,
        }),
        AT,
    );
    let out = param_sink(&mut graph);

    graph.connect(read, 0, scale, 0);
    graph.connect(scale, 0, write, 0);
    graph.connect(scale, 0, out, 0);

    let program = compile(&graph, SLOTS).expect("a delay is a graph cut, not an edge");
    assert_eq!(program.delay_nodes, vec![write]);
    assert!(
        program
            .ops
            .iter()
            .any(|op| matches!(op, Op::DelayRead { .. }))
    );
    assert!(
        program
            .ops
            .iter()
            .any(|op| matches!(op, Op::DelayWrite { .. }))
    );
}

/// Where a write lands in the topological order is not determined when
/// nothing downstream reads the line. Every write goes last so that a read
/// always means "as of the end of the previous sub-block".
#[test]
fn delay_writes_are_emitted_after_everything_else() {
    let mut graph = Graph::new();
    let read = graph.add(
        NodeKind::DelayRead(DelayRead {
            line: 7,
            ty: PortType::Param,
            max_time: real_of(1.0),
            time: real_of(0.1),
        }),
        AT,
    );
    let source = graph.add(NodeKind::Constant(Constant { value: real_of(0.25) }), AT);
    let write = graph.add(
        NodeKind::DelayWrite(DelayWrite {
            line: 7,
            ty: PortType::Param,
        }),
        AT,
    );
    let out = param_sink(&mut graph);
    graph.connect(source, 0, write, 0);
    graph.connect(read, 0, out, 0);

    let program = compile(&graph, SLOTS).unwrap();
    let last = program.ops.last().expect("something was emitted");
    assert!(matches!(last, Op::DelayWrite { .. }));
}

#[test]
fn two_writers_on_one_line_is_an_error_not_a_coin_toss() {
    let mut graph = Graph::new();
    for _ in 0..2 {
        graph.add(
            NodeKind::DelayWrite(DelayWrite {
                line: 3,
                ty: PortType::Param,
            }),
            AT,
        );
    }
    assert!(matches!(
        compile(&graph, SLOTS),
        Err(CompileError::DuplicateDelayWrite { line: 3 })
    ));
}

#[test]
fn the_two_halves_of_a_line_must_agree_on_what_it_carries() {
    let mut graph = Graph::new();
    graph.add(
        NodeKind::DelayWrite(DelayWrite {
            line: 1,
            ty: PortType::Param,
        }),
        AT,
    );
    graph.add(
        NodeKind::DelayRead(DelayRead {
            line: 1,
            ty: PortType::stereo(),
            max_time: real_of(1.0),
            time: real_of(0.1),
        }),
        AT,
    );
    assert!(matches!(
        compile(&graph, SLOTS),
        Err(CompileError::DelayTypeMismatch { line: 1 })
    ));
}

/// `connect` refuses to make one, so this can only arrive from a file. It
/// still has to be caught: the compiler would otherwise read a register
/// holding the wrong kind of value.
#[test]
fn a_hand_written_link_between_two_types_is_refused() {
    let mut graph = Graph::new();
    let audio = graph.add(
        NodeKind::AudioIn(AudioIn {
            bus: 0,
            channels: 2,
        }),
        AT,
    );
    let out = param_sink(&mut graph);
    graph.links.push(Link {
        from: audio,
        from_port: 0,
        to: out,
        to_port: 0,
    });
    assert!(matches!(
        compile(&graph, SLOTS),
        Err(CompileError::TypeMismatch { .. })
    ));
}

fn reads(op: &Op) -> Vec<Reg> {
    match *op {
        Op::Const { .. }
        | Op::Slot { .. }
        | Op::Lfo { .. }
        | Op::Follow { .. }
        | Op::NoteFollow { .. }
        | Op::KeyHeld { .. }
        | Op::KeyStep { .. }
        | Op::KeyLatch { .. }
        | Op::Latch { .. }
        | Op::NoteCc { .. }
        | Op::LatchIs { .. } => Vec::new(),
        Op::Math { a, b, .. } => match b {
            Operand::Reg(b) => vec![a, b],
            Operand::Value(_) => vec![a],
        },
        Op::Select {
            control, low, high, ..
        } => {
            let mut regs = vec![control];
            for operand in [low, high] {
                if let Operand::Reg(reg) = operand {
                    regs.push(reg);
                }
            }
            regs
        }
        Op::Range { a, .. } => vec![a],
        Op::DelayRead { time_reg, .. } => time_reg.into_iter().collect(),
        Op::DelayWrite { a, .. } => vec![a],
    }
}

/// Returns the register an op writes, if any.
///
/// Operations like `DelayWrite`, `KeyStep`, and `KeyLatch` deliberately do not
/// write to registers. This omits an edge in the topological sort, thereby
/// preventing cycles from forming in feedback loops or self-modifying latches.
fn writes(op: &Op) -> Option<Reg> {
    match *op {
        Op::Const { out, .. }
        | Op::Slot { out, .. }
        | Op::Lfo { out, .. }
        | Op::Follow { out, .. }
        | Op::NoteFollow { out, .. }
        | Op::Select { out, .. }
        | Op::Math { out, .. }
        | Op::Range { out, .. }
        | Op::KeyHeld { out, .. }
        | Op::Latch { out, .. }
        | Op::NoteCc { out, .. }
        | Op::LatchIs { out, .. }
        | Op::DelayRead { out, .. } => Some(out),
        Op::DelayWrite { .. } | Op::KeyStep { .. } | Op::KeyLatch { .. } => None,
    }
}
