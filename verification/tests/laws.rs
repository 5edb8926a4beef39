use audio_graph_engine::compile::compile;
use audio_graph_engine::declare::DeclareCx;
use audio_graph_engine::engine::Engine;
use audio_graph_engine::event::{Event, NoteEvent};
use audio_graph_engine::graph::{Graph, Link};
use audio_graph_engine::ir::{
    AudioOp, Chunking, Detect, Follow, LineId, MathOp, NodeId, Op, Operand, MAX_CHANNELS,
    MAX_DELAY_TAPS, NO_NODE,
};
use audio_graph_engine::ledger::{Ended, NoteLedger, MAX_LIVE_NOTES};
use audio_graph_engine::lines::{copy_ring, reorder};
use audio_graph_engine::nodes::{
    AudioIn, AudioOut, Constant, DelayRead, DelayWrite, EnvelopeFollower, Math, Mix, NodeKind,
    ParamPort, Plugin, PluginPorts, SlotIn,
};
use audio_graph_engine::note_state::{key_bit, passes, NoteState};
use audio_graph_engine::number::{Real, Sample};
use audio_graph_engine::params::{Answer, ParamState, ParamWork};
use audio_graph_engine::pool::Pool;
use audio_graph_engine::port::PortType;
use audio_graph_engine::program::SizedLine;
use audio_graph_engine::run::{fade_from, fade_piece, fade_time, read_distance};
use audio_graph_engine::schedule::SlotSchedule;
use audio_graph_engine::sound::{SoundState, Window};
use audio_graph_engine::tables::index_two;

const SLOTS: usize = 32;

/// Where a node is drawn, which no test here looks at.
const AT: [Sample; 2] = [Sample { bits: 0 }; 2];

fn real_of(value: f64) -> Real {
    Real {
        bits: value.to_bits(),
    }
}

fn number(value: Real) -> f64 {
    f64::from_bits(value.bits)
}

fn samples(values: &[f32]) -> Vec<Sample> {
    values
        .iter()
        .map(|value| Sample {
            bits: value.to_bits(),
        })
        .collect()
}

fn levels(values: &[Sample]) -> Vec<f32> {
    values
        .iter()
        .map(|value| f32::from_bits(value.bits))
        .collect()
}

fn constant(graph: &mut Graph) -> NodeId {
    graph.add(
        NodeKind::Constant(Constant {
            value: real_of(0.5),
        }),
        AT,
    )
}

fn adder(graph: &mut Graph) -> NodeId {
    graph.add(
        NodeKind::Math(Math {
            op: MathOp::Add,
            b: real_of(0.0),
        }),
        AT,
    )
}

#[test]
fn connecting_changes_one_source_only() {
    let mut graph = Graph::new();
    let (a, b) = (constant(&mut graph), constant(&mut graph));
    let (x, y) = (adder(&mut graph), adder(&mut graph));
    graph.connect(a, 0, x, 0);
    graph.connect(a, 0, x, 1);
    graph.connect(a, 0, y, 0);
    graph.connect(b, 0, x, 1);
    assert_eq!(graph.source_of(x, 0), Some((a, 0)));
    assert_eq!(graph.source_of(x, 1), Some((b, 0)));
    assert_eq!(graph.source_of(y, 0), Some((a, 0)));
    assert_eq!(graph.source_of(y, 1), None);
    assert_eq!(graph.links.len(), 3);

    graph.disconnect(x, 0);
    assert_eq!(graph.source_of(x, 0), None);
    assert_eq!(graph.source_of(x, 1), Some((b, 0)));
}

#[test]
fn pruning_twice_is_pruning_once() {
    let mut graph = Graph::new();
    let a = constant(&mut graph);
    let x = adder(&mut graph);
    graph.connect(a, 0, x, 0);
    for (from, to_port) in [(a, 7), (99, 1)] {
        graph.links.push(Link {
            from,
            from_port: 0,
            to: x,
            to_port,
        });
    }
    graph.prune();
    assert_eq!(graph.links.len(), 1);
    assert_eq!(graph.source_of(x, 0), Some((a, 0)));
    graph.prune();
    assert_eq!(graph.links.len(), 1);
}

#[test]
fn outputs_slide_down_like_inputs() {
    let mut graph = Graph::new();
    let plugin = graph.add(
        NodeKind::Plugin(Plugin {
            instance: 0,
            ports: PluginPorts {
                audio_out: vec![2, 2, 2],
                ..PluginPorts::default()
            },
        }),
        AT,
    );
    let mix = graph.add(
        NodeKind::Mix(Mix {
            channels: 2,
            inputs: 3,
            gains: Vec::new(),
        }),
        AT,
    );
    for port in 0..3 {
        graph.connect(plugin, port, mix, 2 * port);
    }
    graph.drop_outputs(plugin, 1, 1);
    assert_eq!(graph.source_of(mix, 0), Some((plugin, 0)));
    assert_eq!(graph.source_of(mix, 2), None);
    assert_eq!(graph.source_of(mix, 4), Some((plugin, 1)));
}

#[test]
fn a_delay_takes_a_line_that_is_free() {
    let mut graph = Graph::new();
    assert_eq!(graph.free_line(), 0);
    let (write, read) = graph.add_delay(PortType::Param, AT, AT);
    assert_eq!(graph.free_line(), 1);
    let (other, _) = graph.add_delay(PortType::stereo(), AT, AT);
    assert_eq!(graph.free_line(), 2);
    graph.remove(write);
    assert_eq!(graph.free_line(), 2, "the other half still names it");
    graph.remove(read);
    assert_eq!(graph.free_line(), 0);
    assert!(graph.node(other).is_some());
}

/// Two orders of one graph: whatever is created first, what feeds runs first.
#[test]
fn what_feeds_runs_before_what_is_fed() {
    for backwards in [false, true] {
        let mut graph = Graph::new();
        let mut chain: Vec<NodeId> = (0..5).map(|_| adder(&mut graph)).collect();
        if backwards {
            chain.reverse();
        }
        for pair in chain.windows(2) {
            graph.connect(pair[0], 0, pair[1], 0);
        }
        graph.node_mut(chain[4]).unwrap().always_on = true;
        let program = compile(&graph, SLOTS).unwrap();
        let mut written = vec![false; program.registers];
        for op in &program.ops {
            match *op {
                Op::Const { out, .. } => written[out as usize] = true,
                Op::Math { out, a, b, .. } => {
                    assert!(written[a as usize]);
                    if let Operand::Reg(b) = b {
                        assert!(written[b as usize]);
                    }
                    written[out as usize] = true;
                }
                _ => unreachable!(),
            }
        }
    }
}

/// A sound mixed with its own echo.
fn feedback_loop() -> Graph {
    let mut graph = Graph::new();
    let input = graph.add(
        NodeKind::AudioIn(AudioIn {
            bus: 0,
            channels: 2,
        }),
        AT,
    );
    let write = graph.add(
        NodeKind::DelayWrite(DelayWrite {
            line: 0,
            ty: PortType::stereo(),
        }),
        AT,
    );
    let read = graph.add(
        NodeKind::DelayRead(DelayRead {
            line: 0,
            ty: PortType::stereo(),
            max_time: real_of(1.0),
            time: real_of(0.1),
        }),
        AT,
    );
    let mix = graph.add(
        NodeKind::Mix(Mix {
            channels: 2,
            inputs: 2,
            gains: Vec::new(),
        }),
        AT,
    );
    let out = graph.add(
        NodeKind::AudioOut(AudioOut {
            bus: 0,
            channels: 2,
        }),
        AT,
    );
    graph.connect(input, 0, mix, 0);
    graph.connect(read, 0, mix, 2);
    graph.connect(mix, 0, write, 0);
    graph.connect(mix, 0, out, 0);
    graph
}

/// In every stage the heads of the delay lines move after everything else.
#[test]
fn audio_delay_lines_are_written_after_they_are_read() {
    let graph = feedback_loop();
    let program = compile(&graph, SLOTS).unwrap();
    let looped = program
        .stages
        .iter()
        .find(|stage| stage.chunking == Chunking::SubBlock)
        .expect("the loop runs a sub-block at a time");
    let ops = &program.audio_ops[looped.audio.start as usize..looped.audio.end as usize];
    assert!(ops
        .iter()
        .any(|op| matches!(op, AudioOp::DelayRead { .. })));
    let write = ops
        .iter()
        .position(|op| matches!(op, AudioOp::DelayWrite { .. }));
    assert_eq!(write, Some(ops.len() - 1));
}

/// A level is read in a later stage than the one that made the sound.
#[test]
fn a_level_waits_for_its_sound() {
    let mut graph = Graph::new();
    let input = graph.add(
        NodeKind::AudioIn(AudioIn {
            bus: 0,
            channels: 2,
        }),
        AT,
    );
    let follower = graph.add(
        NodeKind::EnvelopeFollower(EnvelopeFollower {
            detect: Detect::Peak,
            attack: real_of(0.0),
            release: real_of(0.0),
        }),
        AT,
    );
    graph.node_mut(follower).unwrap().always_on = true;
    graph.connect(input, 0, follower, 0);
    let program = compile(&graph, SLOTS).unwrap();
    assert_eq!(program.stages.len(), 2);
    assert_eq!(program.stages[0].audio.start, 0);
    assert_eq!(program.stages[0].audio.end, 1);
    assert_eq!(program.stages[0].params.end, 0);
    assert_eq!(program.stages[1].params.end, 1);
    assert!(matches!(program.ops[0], Op::Follow { buf: 0, .. }));
}

#[test]
fn a_lane_is_driven_only_if_something_is_wired_to_it() {
    let mut graph = Graph::new();
    let value = graph.add(NodeKind::SlotIn(SlotIn { slot: 3 }), AT);
    let sink = graph.add(
        NodeKind::Plugin(Plugin {
            instance: 5,
            ports: PluginPorts {
                params: vec![
                    ParamPort {
                        id: 70,
                        name: "a".into(),
                    },
                    ParamPort {
                        id: 71,
                        name: "b".into(),
                    },
                ],
                ..PluginPorts::default()
            },
        }),
        AT,
    );
    graph.connect(value, 0, sink, 1);
    let program = compile(&graph, SLOTS).unwrap();
    assert!(program.drives_lane(SLOTS));
    assert!(!program.drives_lane(SLOTS + 1));
    assert!(!program.drives_lane(3));
    assert_eq!(program.param_targets.len(), 1);
    assert_eq!(program.param_targets[0].instance, 5);
    assert_eq!(program.param_targets[0].param, 71);
}

#[test]
fn a_plugin_without_outputs_has_no_audio() {
    let mut graph = Graph::new();
    let input = graph.add(
        NodeKind::AudioIn(AudioIn {
            bus: 0,
            channels: 2,
        }),
        AT,
    );
    let meter = graph.add(
        NodeKind::Plugin(Plugin {
            instance: 0,
            ports: PluginPorts {
                audio_in: vec![2],
                ..PluginPorts::default()
            },
        }),
        AT,
    );
    graph.connect(input, 0, meter, 0);
    let program = compile(&graph, SLOTS).unwrap();
    assert!(program.instances.is_empty());
    assert!(!program
        .audio_ops
        .iter()
        .any(|op| matches!(op, AudioOp::Plugin { .. })));
}

/// Each input of a mix waits for the latest one, by as much as it is ahead.
#[test]
fn every_path_waits_for_the_latest() {
    let mut graph = Graph::new();
    let input = graph.add(
        NodeKind::AudioIn(AudioIn {
            bus: 0,
            channels: 2,
        }),
        AT,
    );
    let mix = graph.add(
        NodeKind::Mix(Mix {
            channels: 2,
            inputs: 4,
            gains: Vec::new(),
        }),
        AT,
    );
    let out = graph.add(
        NodeKind::AudioOut(AudioOut {
            bus: 0,
            channels: 2,
        }),
        AT,
    );
    graph.connect(input, 0, mix, 0);
    for (i, latency) in [10, 64, 30].into_iter().enumerate() {
        let node = graph.add(
            NodeKind::Plugin(Plugin {
                instance: i,
                ports: PluginPorts {
                    audio_in: vec![2],
                    audio_out: vec![2],
                    latency,
                    ..PluginPorts::default()
                },
            }),
            AT,
        );
        graph.connect(input, 0, node, 0);
        graph.connect(node, 0, mix, 2 * i as u8 + 2);
    }
    graph.connect(mix, 0, out, 0);
    let program = compile(&graph, SLOTS).unwrap();
    let mut waits: Vec<u32> = program
        .audio_ops
        .iter()
        .filter_map(|op| match op {
            AudioOp::Compensate { samples, .. } => Some(*samples),
            _ => None,
        })
        .collect();
    waits.sort();
    assert_eq!(waits, [34, 54, 64]);
    assert_eq!(program.latency, 64);
}

#[test]
fn only_a_line_of_another_length_gets_a_ring() {
    let mut graph = Graph::new();
    let input = graph.add(
        NodeKind::AudioIn(AudioIn {
            bus: 0,
            channels: 2,
        }),
        AT,
    );
    let write = graph.add(
        NodeKind::DelayWrite(DelayWrite {
            line: 0,
            ty: PortType::stereo(),
        }),
        AT,
    );
    graph.connect(input, 0, write, 0);
    let mut program = compile(&graph, SLOTS).unwrap();
    let sized = program.size_rings(&[100], &[]);
    assert_eq!(
        sized,
        vec![SizedLine {
            node: write,
            len: 100
        }]
    );
    assert_eq!(program.audio_rings[0].len(), MAX_CHANNELS * 100);
    program.size_rings(&[100], &sized);
    assert!(program.audio_rings[0].is_empty());
    program.size_rings(&[101], &sized);
    assert_eq!(program.audio_rings[0].len(), MAX_CHANNELS * 101);
}

#[test]
fn a_buffer_is_not_taken_from_its_readers() {
    let mut pool = Pool::new();
    let first = pool.allocate(2, 2).unwrap();
    let second = pool.allocate(2, 1).unwrap();
    assert_ne!(first, second);
    pool.consume(first);
    assert_eq!(pool.allocate(2, 1).unwrap(), 2, "one read is still to come");
    pool.consume(first);
    let mono = pool.allocate(1, 1).unwrap();
    assert_eq!(mono, 3, "a stereo buffer does not stand in for a mono one");
    assert_eq!(pool.width_of(mono), 1);
    assert_eq!(pool.alloc_avoiding(2, 1, &[first]).unwrap(), 4);
    assert_eq!(pool.allocate(2, 1).unwrap(), first);
}

fn on(key: i16, id: Option<i32>) -> NoteEvent {
    NoteEvent::NoteOn {
        note_id: id,
        port: 0,
        channel: 0,
        key,
        velocity: real_of(1.0),
        sample_offset: 0,
    }
}

fn off(key: i16, id: Option<i32>) -> NoteEvent {
    NoteEvent::NoteOff {
        note_id: id,
        port: 0,
        channel: 0,
        key,
        velocity: real_of(0.0),
        sample_offset: 0,
    }
}

#[test]
fn notes_are_told_apart_and_let_go_one_by_one() {
    let mut ledger = NoteLedger::new();
    let first = ledger.translate(on(60, None)).note_id().unwrap();
    let second = ledger.translate(on(60, None)).note_id().unwrap();
    assert_ne!(first, second);
    ledger.delivered(first);
    ledger.delivered(second);
    let let_go = ledger.translate(off(60, None)).note_id().unwrap();
    assert!(let_go == first || let_go == second);
    let other = ledger.translate(off(60, None)).note_id().unwrap();
    assert_ne!(let_go, other);

    let mut ended: Vec<Ended> = Vec::new();
    ledger.end_block(&mut ended);
    assert!(ended.is_empty(), "the plugin has not said it is done");
    ledger.finished(first);
    ledger.end_block(&mut ended);
    assert_eq!(ended.len(), 1);
    assert_eq!(ended[0].key, 60);
    ledger.finished(second);
    ledger.end_block(&mut ended);
    assert_eq!(ended.len(), 2);
    ledger.end_block(&mut ended);
    assert_eq!(ended.len(), 2, "and each note is reported once");
}

#[test]
fn the_oldest_note_makes_room() {
    let mut ledger = NoteLedger::new();
    for key in 0..MAX_LIVE_NOTES {
        let id = ledger.translate(on((key % 128) as i16, None)).note_id();
        ledger.delivered(id.unwrap());
    }
    assert_eq!(ledger.stolen(), 0);
    ledger.translate(on(5, None));
    assert_eq!(ledger.stolen(), 1);
    let mut ended: Vec<Ended> = Vec::new();
    ledger.end_all(&mut ended);
    assert_eq!(ended.len(), MAX_LIVE_NOTES + 1);
    assert_eq!(ended[0].key, 0);
}

#[test]
fn a_filter_takes_both_halves_of_a_note() {
    let mask = key_bit(60).unwrap();
    assert_eq!(mask, 1u128 << 60);
    assert_eq!(key_bit(-1), None);
    assert_eq!(key_bit(128), None);
    for (key, through) in [(60, false), (61, true)] {
        for event in [on(key, None), off(key, None)] {
            let event = Event::Note(event);
            assert_eq!(passes(&event, mask, 0xffff, u128::MAX), through);
            assert!(!passes(&event, 0, 0xfffe, u128::MAX));
        }
    }
    let wheel = Event::Note(NoteEvent::Cc {
        port: 0,
        channel: 0,
        cc: 1,
        value: real_of(0.5),
        sample_offset: 0,
    });
    assert!(passes(&wheel, mask, 0xffff, 2));
    assert!(!passes(&wheel, mask, 0xffff, 1));
}

#[test]
fn rings_follow_their_nodes() {
    let mut rings = vec!["a", "b", "c", "d"];
    let mut nodes = vec![10, 20, 30, 40];
    let mut order = vec![0; 4];
    reorder(&mut rings, &mut nodes, &mut order, &[30, 50, 10]);
    assert_eq!(rings[0], "c");
    assert_eq!(rings[2], "a");
    assert_eq!(nodes[..3], [30, 50, 10]);
    assert_eq!(order[1], usize::MAX, "there was no ring for the new node");
}

#[test]
fn a_longer_ring_keeps_what_was_in_it() {
    // Two channels of four samples, the oldest at the head.
    let from = samples(&[3.0, 4.0, 1.0, 2.0, 30.0, 40.0, 10.0, 20.0]);
    let mut to = samples(&[0.0; 12]);
    let mut head = 2;
    copy_ring(&from, 4, &mut to, 6, &mut head);
    assert_eq!(head, 4);
    assert_eq!(levels(&to[..4]), [1.0, 2.0, 3.0, 4.0]);
    assert_eq!(levels(&to[6..10]), [10.0, 20.0, 30.0, 40.0]);

    let mut short = samples(&[0.0; 4]);
    let mut head = 2;
    copy_ring(&from, 4, &mut short, 2, &mut head);
    assert_eq!(head, 0, "the next sample goes where the older one lies");
    assert_eq!(levels(&short), [3.0, 4.0, 30.0, 40.0]);
}

#[test]
fn whole_numbers_are_the_numbers_they_are() {
    for n in 0..=255u8 {
        assert_eq!(number(Real::from_count(n)), f64::from(n));
    }
}

#[test]
fn numbers_compare_as_floats_do() {
    let values = [
        0.0,
        -0.0,
        1.0,
        -1.0,
        0.5,
        1e300,
        -1e-300,
        f64::INFINITY,
        f64::NEG_INFINITY,
        f64::NAN,
    ];
    for a in values {
        assert_eq!(real_of(a).is_nan(), a.is_nan());
        assert_eq!(real_of(a).is_finite(), a.is_finite());
        for b in values {
            assert_eq!(real_of(a).is_less(real_of(b)), a < b, "{a} < {b}");
            assert_eq!(real_of(a).is_at_least(real_of(b)), a >= b);
            assert_eq!(real_of(a).is_equal(real_of(b)), a == b);
            let (most, least) = (
                number(real_of(a).max(real_of(b))),
                number(real_of(a).min(real_of(b))),
            );
            assert!(most == a.max(b) || most.is_nan() && a.max(b).is_nan());
            assert!(least == a.min(b) || least.is_nan() && a.min(b).is_nan());
        }
        if !a.is_nan() {
            assert_eq!(
                number(real_of(a).clamp(Real::zero(), Real::one())),
                a.clamp(0.0, 1.0)
            );
        }
    }
}

/// What was written so many sub-blocks ago is what a delay line gives back.
#[test]
fn a_parameter_line_gives_back_what_was_written() {
    let mut params = ParamState::new();
    let notes = NoteState::new();
    let written = MAX_DELAY_TAPS + 10;
    for i in 0..written {
        let value = real_of(i as f64);
        let put = Op::Const { out: 0, value };
        assert_eq!(params.step(&put, &[], &notes), ParamWork::Nothing);
        let write = Op::DelayWrite { line: 0, a: 0 };
        assert_eq!(params.step(&write, &[], &notes), ParamWork::Nothing);
    }
    let read = Op::DelayRead {
        out: 1,
        line: 0,
        time: real_of(0.25),
        time_reg: None,
    };
    let mut back = |taps: Option<usize>| {
        let work = params.step(&read, &[], &notes);
        assert_eq!(
            work,
            ParamWork::Taps {
                out: 1,
                line: 0,
                time: real_of(0.25)
            }
        );
        params.settle(&work, &Answer::Taps(taps));
        number(params.registers[1]) as usize
    };
    assert_eq!(back(Some(1)), written - 1);
    assert_eq!(back(Some(100)), written - 100);
    assert_eq!(back(Some(0)), written - 1, "never less than one");
    assert_eq!(back(Some(usize::MAX)), written - (MAX_DELAY_TAPS - 1));
    assert_eq!(back(None), written - MAX_DELAY_TAPS);
}

/// A toggle moves on with every strike of its key, and one output is open.
#[test]
fn a_toggle_goes_round_and_opens_one_output() {
    let mut params = ParamState::new();
    let mut notes = NoteState::new();
    let step = Op::KeyStep {
        state: 0,
        buf: 0,
        key: 24,
        count: 3,
    };
    let mut open = Vec::new();
    for strike in 0..5 {
        notes.bufs[0].played.struck = if strike == 2 { 0 } else { 1 << 24 };
        assert_eq!(params.step(&step, &[], &notes), ParamWork::Nothing);
        for output in 0..3u8 {
            params.step(
                &Op::LatchIs {
                    out: u16::from(output),
                    state: 0,
                    value: Real::from_count(output),
                    initial: Real::zero(),
                },
                &[],
                &notes,
            );
        }
        let gates: Vec<f64> = (0..3).map(|i| number(params.registers[i])).collect();
        assert_eq!(gates.iter().sum::<f64>(), 1.0);
        open.push(gates.iter().position(|&gate| gate == 1.0).unwrap());
    }
    assert_eq!(open, [1, 2, 2, 0, 1]);
}

#[test]
fn a_latch_between_positions_asks_for_the_next() {
    let mut params = ParamState::new();
    let mut notes = NoteState::new();
    notes.bufs[0].played.struck = 1 << 24;
    params.latch(0, real_of(0.5));
    let step = Op::KeyStep {
        state: 0,
        buf: 0,
        key: 24,
        count: 2,
    };
    let work = params.step(&step, &[], &notes);
    assert_eq!(
        work,
        ParamWork::Step {
            state: 0,
            at: real_of(0.5),
            count: 2
        }
    );
    params.settle(&work, &Answer::Value(real_of(1.5)));
    assert_eq!(number(params.latches[0].value), 1.5);
}

#[test]
fn held_keys_are_counted() {
    let mut params = ParamState::new();
    let mut notes = NoteState::new();
    notes.bufs[3].played.held = (1 << 0) | (1 << 60) | (1 << 127);
    let read = Op::NoteFollow {
        out: 4,
        buf: 3,
        state: 2,
        what: Follow::HeldKeys,
    };
    assert_eq!(params.step(&read, &[], &notes), ParamWork::Nothing);
    assert_eq!(number(params.registers[4]), 3.0);
    assert_eq!(number(params.latches[2].value), 3.0);
}

/// Lanes below the base are brought between nought and one, those above are left,
/// and what is not a number lands as nothing.
#[test]
fn lanes_land_normalized() {
    let mut params = ParamState::new();
    let notes = NoteState::new();
    for (out, value) in [2.5, -3.0, f64::NAN, -60.0, f64::INFINITY]
        .into_iter()
        .enumerate()
    {
        let value = real_of(value);
        let out = out as u16;
        params.step(&Op::Const { out, value }, &[], &notes);
    }
    let outputs = vec![(0, 0), (1, 1), (2, 2), (5, 3), (6, 4)];
    let mut slots = vec![real_of(0.75); 8];
    params.write_lanes(&outputs, 4, &mut slots);
    let lanes: Vec<f64> = slots.iter().map(|&value| number(value)).collect();
    assert_eq!(lanes, [1.0, 0.0, 0.0, 0.75, 0.75, -60.0, 0.0, 0.75]);
}

#[test]
fn sub_blocks_cover_the_block() {
    let mut schedule = SlotSchedule::new(2, 100, 32).unwrap();
    assert_eq!(schedule.begin(100, 32, &[real_of(0.5)]), Some(4));
    let pieces: Vec<(u32, u32)> = (0..schedule.blocks())
        .map(|row| (schedule.offset(row), schedule.frames_of(row)))
        .collect();
    assert_eq!(pieces, [(0, 32), (32, 32), (64, 32), (96, 4)]);
    assert_eq!(number(schedule.rows[3][0]), 0.5);
    assert_eq!(number(schedule.rows[3][1]), 0.0);
    assert_eq!(schedule.begin(101, 32, &[]), None, "longer than promised");
    assert_eq!(schedule.begin(8, 0, &[]), None);
    assert_eq!(schedule.blocks(), 4, "a refused block changes nothing");
    assert!(SlotSchedule::new(2, 100, 0).is_none());
}

fn window(block: usize, start: usize, frames: usize) -> Window {
    Window {
        block,
        start,
        frames,
    }
}

#[test]
fn channels_lie_apart() {
    let mut sound = SoundState::new();
    sound.prepare(8, &[2]);
    let whole = window(8, 0, 8);
    let part = window(8, 2, 3);
    sound.set_channel(1, 0, &whole, &samples(&[1.0; 8]));
    sound.set_channel(1, 1, &part, &samples(&[2.0, 3.0, 4.0]));
    assert_eq!(levels(sound.channel(1, 0, &whole)), [1.0; 8]);
    assert_eq!(
        levels(sound.channel(1, 1, &whole)),
        [0.0, 0.0, 2.0, 3.0, 4.0, 0.0, 0.0, 0.0]
    );
    assert_eq!(levels(sound.channel(2, 0, &whole)), [0.0; 8]);
}

#[test]
fn a_compensated_signal_comes_out_late_and_unchanged() {
    let mut sound = SoundState::new();
    sound.prepare(4, &[2]);
    let win = window(4, 0, 4);
    let mut heard = Vec::new();
    for block in 0..3 {
        let ramp: Vec<f32> = (0..4).map(|i| (block * 4 + i + 1) as f32).collect();
        sound.set_channel(0, 0, &win, &samples(&ramp));
        sound.compensate(0, 0, 3, 1, &win);
        heard.extend(levels(sound.channel(0, 0, &win)));
    }
    assert_eq!(
        heard,
        [0.0, 0.0, 0.0, 1.0, 2.0, 3.0, 4.0, 5.0, 6.0, 7.0, 8.0, 9.0]
    );
}

/// One audio delay line of eight samples a channel.
fn line_of_eight() -> SoundState {
    let mut sound = SoundState::new();
    sound.prepare(4, &[2]);
    let mut rings = vec![samples(&[0.0; 16])];
    sound.adopt(&vec![7], &vec![8], &mut rings);
    sound
}

#[test]
fn an_audio_line_plays_back_what_was_written() {
    let mut sound = line_of_eight();
    let win = window(4, 0, 4);
    for block in 0..3 {
        let ramp: Vec<f32> = (0..4).map(|i| (block * 4 + i + 1) as f32).collect();
        sound.set_channel(0, 0, &win, &samples(&ramp));
        sound.delay_write(0, 0, 1, &win);
    }
    assert_eq!(sound.line_len(0), 8);
    for back in 1..=8usize {
        let heard = f32::from_bits(sound.tap(0, 0, 0, back).bits);
        assert_eq!(heard, (13 - back) as f32);
        let other = f32::from_bits(sound.tap(0, 1, 0, back).bits);
        assert_eq!(other, 0.0, "a channel the source does not have is silent");
    }
    assert_eq!(f32::from_bits(sound.tap(0, 0, 2, 3).bits), 12.0);
    sound.delay_silence(0, 3);
    assert_eq!(f32::from_bits(sound.tap(0, 0, 0, 3).bits), 0.0);
    assert_eq!(f32::from_bits(sound.tap(0, 0, 0, 4).bits), 12.0);
    sound.forget();
    assert_eq!(f32::from_bits(sound.tap(0, 0, 0, 4).bits), 0.0);
}

#[test]
fn a_line_goes_on_in_a_ring_of_another_length() {
    let mut sound = line_of_eight();
    let win = window(4, 0, 4);
    sound.set_channel(0, 0, &win, &samples(&[1.0, 2.0, 3.0, 4.0]));
    sound.delay_write(0, 0, 1, &win);
    // The line moves to another index, and gets a longer ring.
    let mut rings = vec![samples(&[0.0; 8]), samples(&[0.0; 24])];
    sound.adopt(&vec![9, 7], &vec![4, 12], &mut rings);
    assert_eq!(sound.line_len(1), 12);
    for back in 1..=4usize {
        let heard = f32::from_bits(sound.tap(1, 0, 0, back).bits);
        assert_eq!(heard, (5 - back) as f32);
    }
    assert_eq!(f32::from_bits(sound.tap(0, 0, 0, 1).bits), 0.0);
}

#[test]
fn a_reading_stays_behind_the_chunk_and_within_the_line() {
    let far = |asked: f64, reach: f64| {
        number(read_distance(
            real_of(asked),
            real_of(reach),
            real_of(34.0),
            real_of(2400.0),
        ))
    };
    assert_eq!(far(64.0, 2400.0), 64.0);
    assert_eq!(far(1.0, 2400.0), 34.0);
    assert_eq!(far(5000.0, 2400.0), 2400.0);
    assert_eq!(far(5000.0, 9600.0), 2400.0);
    assert_eq!(far(500.0, 480.0), 480.0);
    assert_eq!(far(500.0, 3.0), 34.0);
}

#[test]
fn a_fade_goes_by_sub_blocks() {
    let mut pieces = Vec::new();
    let mut done = 0;
    while done < 50 {
        let (len, row) = fade_piece(20, done, 50, 32);
        pieces.push((len, row));
        done += len;
    }
    assert_eq!(pieces, [(12, 0), (32, 1), (6, 2)]);
    assert_eq!(fade_piece(3, 0, 2, 0), (1, 3), "no quantum is a frame");

    let (up, down) = (real_of(10.0), real_of(20.0));
    assert_eq!(fade_time(real_of(0.0), real_of(1.0), up, down), up);
    assert_eq!(fade_time(real_of(1.0), real_of(0.0), up, down), down);
    assert_eq!(fade_time(real_of(1.0), real_of(1.0), up, down), down);
    assert_eq!(fade_from(Real::not_set(), real_of(1.0)), real_of(1.0));
    assert_eq!(fade_from(real_of(0.25), real_of(1.0)), real_of(0.25));
}

#[test]
fn two_of_a_table_are_had_at_once() {
    let mut table = [1, 2, 3];
    let (from, to) = index_two(&mut table, 2, 0);
    *to += *from;
    assert_eq!(table, [4, 2, 3]);
    let (from, to) = index_two(&mut table, 0, 1);
    *to += *from;
    assert_eq!(table, [4, 6, 3]);
}

#[test]
fn delay_lines_are_numbered_by_their_writers() {
    let mut cx = DeclareCx::new();
    cx.begin(0);
    cx.declare_line(1, PortType::Param, false).unwrap();
    cx.begin(1);
    cx.declare_line(2, PortType::Param, true).unwrap();
    cx.begin(2);
    cx.declare_line(1, PortType::Param, true).unwrap();
    cx.begin(3);
    cx.declare_line(9, PortType::Param, false).unwrap();
    let lines = cx.finish();
    let ids: Vec<LineId> = lines.iter().map(|line| line.id).collect();
    let writers: Vec<NodeId> = lines.iter().map(|line| line.writer).collect();
    assert_eq!(ids, [2, 1, 9]);
    assert_eq!(writers, [1, 2, NO_NODE]);
}

fn param_end(graph: &mut Graph, line: LineId, writes: bool) -> NodeId {
    let kind = if writes {
        NodeKind::DelayWrite(DelayWrite {
            line,
            ty: PortType::Param,
        })
    } else {
        NodeKind::DelayRead(DelayRead {
            line,
            ty: PortType::Param,
            max_time: real_of(1.0),
            time: real_of(0.1),
        })
    };
    graph.add(kind, AT)
}

#[test]
fn a_reader_drawn_first_does_not_number_its_line() {
    let mut graph = Graph::new();
    param_end(&mut graph, 1, false);
    param_end(&mut graph, 7, false);
    let two = param_end(&mut graph, 2, true);
    let one = param_end(&mut graph, 1, true);
    let program = compile(&graph, SLOTS).unwrap();
    assert_eq!(program.delay_nodes, [two, one, NO_NODE]);
}

#[test]
fn lines_without_a_writer_take_no_ring() {
    let mut rings = vec!["five", "seven", "unused"];
    let mut nodes = vec![5, 7, NO_NODE];
    let mut order = vec![0; 3];
    reorder(&mut rings, &mut nodes, &mut order, &[NO_NODE, NO_NODE, 5]);
    assert_eq!(rings[2], "five");
    assert_eq!(order[..2], [usize::MAX, usize::MAX]);
    assert_eq!(nodes, [NO_NODE, NO_NODE, 5]);
}

#[test]
fn a_line_that_lost_its_writer_reads_silence() {
    let mut params = ParamState::new();
    params.adopt(0, &vec![], &vec![], &vec![5]);
    params.lines[0].ring[0] = real_of(0.75);
    params.adopt(0, &vec![], &vec![], &vec![NO_NODE, 5]);
    assert_eq!(number(params.lines[1].ring[0]), 0.75);
    params.adopt(0, &vec![], &vec![], &vec![NO_NODE, NO_NODE]);
    for line in &params.lines[..2] {
        assert!(line.ring.iter().all(|&value| number(value) == 0.0));
    }
}

#[test]
fn a_buffer_to_avoid_may_be_named_twice() {
    let mut pool = Pool::new();
    let kept = pool.allocate(2, 1).unwrap();
    pool.consume(kept);
    assert_eq!(pool.alloc_avoiding(2, 1, &[kept, kept]).unwrap(), 1);
    assert_eq!(
        pool.allocate(2, 1).unwrap(),
        kept,
        "it is free as it was before"
    );
}

#[test]
fn a_block_that_is_refused_leaves_its_quantum() {
    let mut engine = Engine::new();
    let mut schedule = SlotSchedule::new(4, 64, 16).unwrap();
    let mut out = samples(&[1.0; 8]);
    assert_eq!(schedule.begin(64, 16, &[]), Some(4));
    let run = engine.run_block(&mut schedule, &[], &[], 65, 16, &mut out);
    assert!(run.is_none());
    assert_eq!((schedule.quantum(), schedule.blocks()), (16, 4));
    let run = engine.run_block(&mut schedule, &[], &[], 65, 8, &mut out);
    assert!(run.is_none());
    assert_eq!((schedule.quantum(), schedule.blocks()), (8, 0));
    let run = engine.run_block(&mut schedule, &[], &[], 64, 0, &mut out);
    assert!(run.is_none());
    assert_eq!(schedule.quantum(), 8);
    assert_eq!(levels(&out), [0.0; 8]);
}

#[test]
fn nodes_run_depth_first_by_input_number() {
    let mut graph = Graph::new();
    let second = constant(&mut graph);
    let first = graph.add(
        NodeKind::Constant(Constant {
            value: real_of(0.25),
        }),
        AT,
    );
    let sum = adder(&mut graph);
    let write = param_end(&mut graph, 0, true);
    graph.connect(second, 0, sum, 1);
    graph.connect(first, 0, sum, 0);
    graph.connect(sum, 0, write, 0);
    let program = compile(&graph, SLOTS).unwrap();
    assert!(matches!(program.ops[0], Op::Const { out: 0, value } if number(value) == 0.25));
    assert!(matches!(program.ops[1], Op::Const { out: 1, value } if number(value) == 0.5));
    assert!(matches!(program.ops[2], Op::Math { out: 2, a: 0, .. }));
    assert_eq!(program.registers, 3);
}

#[test]
fn nodes_that_feed_nothing_leave_the_program_as_it_is() {
    let build = |idle: bool| {
        let mut graph = Graph::new();
        if idle {
            graph.next_id = 100;
            adder(&mut graph);
            graph.next_id = 0;
        }
        let value = constant(&mut graph);
        let sum = adder(&mut graph);
        let write = param_end(&mut graph, 0, true);
        graph.connect(value, 0, sum, 0);
        graph.connect(sum, 0, write, 0);
        if idle {
            graph.next_id = 200;
            constant(&mut graph);
        }
        compile(&graph, SLOTS).unwrap()
    };
    let (plain, drawn) = (build(false), build(true));
    assert_eq!(format!("{:?}", plain), format!("{:?}", drawn));
}

/// What lies around a loop works frame by frame: it takes in and hands out.
#[test]
fn only_the_loop_runs_in_sub_blocks() {
    let program = compile(&feedback_loop(), SLOTS).unwrap();
    let mut around = Vec::new();
    let mut looped = Vec::new();
    for stage in &program.stages {
        let ops = &program.audio_ops[stage.audio.start as usize..stage.audio.end as usize];
        if stage.chunking == Chunking::SubBlock {
            looped.push(ops);
        } else {
            around.extend(ops);
        }
    }
    assert_eq!(looped.len(), 1);
    assert!(matches!(
        looped[0],
        [AudioOp::DelayRead { .. }, AudioOp::Mix { .. }, AudioOp::DelayWrite { .. }]
    ));
    assert!(matches!(
        around[..],
        [AudioOp::Input { .. }, AudioOp::Output { .. }]
    ));
}

/// Every socket that a link can lead into is followed, all 256 of them.
#[test]
fn a_node_with_all_the_sockets_there_are_runs_after_what_it_reads() {
    let mut graph = Graph::new();
    let sink = graph.add(
        NodeKind::Plugin(Plugin {
            instance: 0,
            ports: PluginPorts {
                params: (0..300)
                    .map(|id| ParamPort {
                        id,
                        name: String::new(),
                    })
                    .collect(),
                ..PluginPorts::default()
            },
        }),
        AT,
    );
    let first = constant(&mut graph);
    let last = constant(&mut graph);
    graph.connect(first, 0, sink, 1);
    graph.connect(last, 0, sink, 255);
    let program = compile(&graph, SLOTS).unwrap();
    assert_eq!(program.ops.len(), 2);
    assert_eq!(program.outputs.len(), 2);
}

/// The last socket that has a number can be among those that go.
#[test]
fn dropping_the_last_sockets_cuts_the_very_last() {
    let mut graph = Graph::new();
    graph.links = vec![
        Link {
            from: 1,
            from_port: 0,
            to: 2,
            to_port: 253,
        },
        Link {
            from: 1,
            from_port: 0,
            to: 2,
            to_port: 255,
        },
    ];
    graph.drop_inputs(2, 254, 2);
    assert_eq!(graph.links.len(), 1);
    assert_eq!(graph.source_of(2, 253), Some((1, 0)));
    graph.links[0].from_port = 255;
    graph.drop_outputs(1, 200, 56);
    assert!(graph.links.is_empty());
}
