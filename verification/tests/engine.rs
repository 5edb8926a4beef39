use audio_graph_engine::block::{BlockRun, Work};
use audio_graph_engine::compile::compile;
use audio_graph_engine::engine::{Engine, PreparedProgram};
use audio_graph_engine::event::{Event, NoteEvent};
use audio_graph_engine::graph::Graph;
use audio_graph_engine::ir::{
    AudioOp, Chunking, Detect, Folding, Follow, MathOp, NodeId, Program, Rate, Waveform, MAX_AUDIO_LANES,
    MAX_CHANNELS, MAX_GRAPH_PARAMS,
};
use audio_graph_engine::nodes::{
    AudioIn, AudioOut, CcIn, Constant, DelayRead, DelayWrite, EnvelopeFollower, FilterMode, Gate,
    KeyParam, KeyParamMode, KeySplit, KeySwitch, KeySwitchMode, Lfo, Math, Mix, NodeKind,
    NoteFilter, NoteFollow, NoteGate, NoteMute, ParamPort, ParamToCc, Plugin, PluginPorts,
    SlotIn, Switch,
};
use audio_graph_engine::number::{Real, Sample};
use audio_graph_engine::params::{follow_time, Answer, Arithmetic, ParamWork};
use audio_graph_engine::port::PortType;
use audio_graph_engine::run::{
    fade_from, fade_piece, fade_time, lane_at, read_distance, AudioAnswer, AudioWork, ChunkPlace,
    PluginCall,
};
use audio_graph_engine::schedule::SlotSchedule;
use audio_graph_engine::sound::Window;

/// The rate the audio tests run at. Real rather than convenient, because
/// the delay rings are sized in seconds and a fake rate would make a
/// sensible `max_time` come out as four samples.
const RATE: f64 = 48_000.0;

const SLOTS: usize = 32;

/// Where a node is drawn, which no test here looks at.
const AT: [Sample; 2] = [Sample { bits: 0 }; 2];

fn real_of(value: f64) -> Real {
    Real {
        bits: value.to_bits(),
    }
}

fn reals(values: &[f64]) -> Vec<Real> {
    values.iter().map(|&value| real_of(value)).collect()
}

fn number(value: Real) -> f64 {
    f64::from_bits(value.bits)
}

fn numbers(values: &[Real]) -> Vec<f64> {
    values.iter().map(|&value| number(value)).collect()
}

fn sample(value: f32) -> Sample {
    Sample {
        bits: value.to_bits(),
    }
}

fn samples(values: &[f32]) -> Vec<Sample> {
    values.iter().map(|&value| sample(value)).collect()
}

fn level(value: Sample) -> f32 {
    f32::from_bits(value.bits)
}

/// At and below -120 dB there is nothing left to hear.
fn db_to_linear(db: f64) -> f64 {
    if db <= -120.0 {
        0.0
    } else {
        10f64.powf(db / 20.0)
    }
}

#[allow(dead_code)]
fn linear_to_db(linear: f64) -> f64 {
    if linear <= 0.0 {
        -120.0
    } else {
        20.0 * linear.log10()
    }
}

/// A sub-block of the parameter half.
#[derive(Clone, Copy)]
struct BlockContext {
    sample_rate: f64,
    tempo_bpm: f64,
    frames: u32,
    offset: u32,
    row: u32,
    block: u32,
}

/// A block of the audio half, and the lanes it reads.
#[derive(Clone, Copy)]
struct AudioContext<'a> {
    frames: u32,
    quantum: u32,
    sample_rate: f64,
    lanes: &'a [f64],
    lanes_per_row: usize,
}

/// How a plugin's region is packed for one call.
#[derive(Clone, Copy)]
struct AudioChunk {
    input_channels: u16,
    output_channels: u16,
    frames: u32,
}

impl AudioChunk {
    fn channel(&self, channel: u16) -> std::ops::Range<usize> {
        let frames = self.frames as usize;
        channel as usize * frames..(channel as usize + 1) * frames
    }
}

/// The plugins a program calls.
trait AudioInstances {
    fn reports_note_end(&self, _instance: u32, _port: i16) -> bool {
        true
    }

    fn process(
        &mut self,
        instance: u32,
        notes: &[Event],
        input: &[f32],
        output: &mut [f32],
        chunk: AudioChunk,
    );
}


/// The engine with its arithmetic done in floating point.
struct Rig {
    core: Engine,
}

impl std::ops::Deref for Rig {
    type Target = Engine;

    fn deref(&self) -> &Engine {
        &self.core
    }
}

impl std::ops::DerefMut for Rig {
    fn deref_mut(&mut self) -> &mut Engine {
        &mut self.core
    }
}

/// The rows of a block, laid out from a flat run of lanes.
fn schedule_of(frames: u32, quantum: u32, lanes: &[f64], width: usize) -> SlotSchedule {
    let mut schedule = SlotSchedule::new(width, frames, quantum).unwrap();
    schedule.begin(frames, quantum, &[]).unwrap();
    for (row, values) in schedule.rows.iter_mut().enumerate() {
        for (lane, value) in values.iter_mut().enumerate() {
            *value = real_of(lanes.get(row * width + lane).copied().unwrap_or(0.0));
        }
    }
    schedule
}

impl Rig {
    fn new() -> Rig {
        Rig {
            core: Engine::new(),
        }
    }

    fn run(&mut self, ctx: &BlockContext, slots: &mut [f64]) {
        let run = self.core.run(ctx.row as usize);
        self.run_row(run, ctx, slots);
    }

    #[allow(dead_code)]
    fn run_stage(&mut self, stage: usize, ctx: &BlockContext, slots: &mut [f64]) {
        let run = self.core.run_stage(stage, ctx.row as usize);
        self.run_row(run, ctx, slots);
    }

    fn run_row(&mut self, mut run: BlockRun, ctx: &BlockContext, slots: &mut [f64]) {
        let win = Window {
            block: ctx.block as usize,
            start: ctx.offset as usize,
            frames: ctx.frames as usize,
        };
        let mut lanes = reals(slots);
        loop {
            match self
                .core
                .step_row(&mut run, ctx.offset, ctx.frames, &mut lanes)
            {
                Work::Param { work, .. } => {
                    if work != ParamWork::Nothing {
                        let answer = self.answer(&work, &win, ctx.sample_rate, ctx.tempo_bpm);
                        self.core.settle(&work, &answer);
                    }
                }
                _ => break,
            }
        }
        slots.copy_from_slice(&numbers(&lanes));
    }

    fn run_audio(
        &mut self,
        ctx: &AudioContext,
        daw_in: &[f32],
        daw_out: &mut [f32],
        nodes: &mut dyn AudioInstances,
    ) {
        let mut heard = samples(daw_out);
        let run = self.core.run_audio(&mut heard);
        self.run_half(run, ctx, daw_in, &mut heard, nodes);
        for (to, from) in daw_out.iter_mut().zip(heard) {
            *to = level(from);
        }
    }

    #[allow(dead_code)]
    fn run_audio_stage(
        &mut self,
        stage: usize,
        ctx: &AudioContext,
        daw_in: &[f32],
        daw_out: &mut [f32],
        nodes: &mut dyn AudioInstances,
    ) {
        let mut heard = samples(daw_out);
        let run = self.core.run_audio_stage(stage);
        self.run_half(run, ctx, daw_in, &mut heard, nodes);
        for (to, from) in daw_out.iter_mut().zip(heard) {
            *to = level(from);
        }
    }

    fn run_half(
        &mut self,
        run: BlockRun,
        ctx: &AudioContext,
        daw_in: &[f32],
        heard: &mut [Sample],
        nodes: &mut dyn AudioInstances,
    ) {
        let mut schedule = schedule_of(ctx.frames, ctx.quantum, ctx.lanes, ctx.lanes_per_row);
        self.drive(
            run,
            &mut schedule,
            (ctx.sample_rate, 120.0),
            &samples(daw_in),
            heard,
            nodes,
        );
    }

    #[allow(dead_code, clippy::too_many_arguments)]
    fn run_block(
        &mut self,
        schedule: &mut SlotSchedule,
        slots: &[f64],
        events: &[Event],
        frames: u32,
        quantum: u32,
        sample_rate: f64,
        tempo_bpm: f64,
        daw_in: &[f32],
        daw_out: &mut [f32],
        nodes: &mut dyn AudioInstances,
    ) -> bool {
        let mut heard = samples(daw_out);
        let run = self
            .core
            .run_block(schedule, &reals(slots), events, frames, quantum, &mut heard);
        if let Some(run) = run {
            let clock = (sample_rate, tempo_bpm);
            self.drive(run, schedule, clock, &samples(daw_in), &mut heard, nodes);
        }
        for (to, from) in daw_out.iter_mut().zip(heard) {
            *to = level(from);
        }
        run.is_some()
    }

    /// Runs to the end, working out each thing the engine asks for.
    fn drive(
        &mut self,
        mut run: BlockRun,
        schedule: &mut SlotSchedule,
        (rate, tempo): (f64, f64),
        daw_in: &[Sample],
        heard: &mut [Sample],
        nodes: &mut dyn AudioInstances,
    ) {
        loop {
            match self.core.step(&mut run, schedule, daw_in, heard) {
                Work::Over => break,
                Work::Stage => {}
                Work::Param { work, row } => {
                    if work != ParamWork::Nothing {
                        let win = Window {
                            block: schedule.frames as usize,
                            start: schedule.offset(row) as usize,
                            frames: schedule.frames_of(row) as usize,
                        };
                        let answer = self.answer(&work, &win, rate, tempo);
                        self.core.settle(&work, &answer);
                    }
                }
                Work::Audio { work, place } => {
                    let answer = self.sound_of(&work, &place, schedule, rate, nodes);
                    self.core.settle_audio(&work, &place.win, &answer);
                }
            }
        }
    }

    fn answer(&self, work: &ParamWork, win: &Window, rate: f64, tempo: f64) -> Answer {
        let dt = win.frames as f64 / rate;
        match *work {
            ParamWork::Nothing => unreachable!(),
            ParamWork::Math { a, b, by, .. } => {
                let (a, b) = (number(a), number(b));
                Answer::Value(real_of(match by {
                    Arithmetic::Sum => a + b,
                    Arithmetic::Difference => a - b,
                    Arithmetic::Product => a * b,
                    Arithmetic::Power => a.powf(b),
                }))
            }
            ParamWork::Range {
                value,
                in_lo,
                in_hi,
                out_lo,
                out_hi,
                clamp,
                ..
            } => {
                let span = number(in_hi) - number(in_lo);
                let t = if span == 0.0 {
                    0.0
                } else {
                    (number(value) - number(in_lo)) / span
                };
                let t = if clamp { t.clamp(0.0, 1.0) } else { t };
                Answer::Value(real_of(
                    number(out_lo) + t * (number(out_hi) - number(out_lo)),
                ))
            }
            ParamWork::Lfo {
                waveform,
                rate: speed,
                offset_phase,
                depth,
                centre,
                phase,
                hold,
                draw,
                ..
            } => {
                let at = (number(phase) + number(offset_phase)).rem_euclid(1.0);
                let shape = match waveform {
                    Waveform::Sine => (at * std::f64::consts::TAU).sin(),
                    Waveform::Triangle => 1.0 - 4.0 * (at - 0.5).abs(),
                    Waveform::Saw => 2.0 * at - 1.0,
                    Waveform::Square => {
                        if at < 0.5 {
                            -1.0
                        } else {
                            1.0
                        }
                    }
                    Waveform::Random => number(hold),
                };
                let hz = match speed {
                    Rate::Hz(hz) => number(hz),
                    Rate::Beats(beats) => 1.0 / number(beats) * tempo / 60.0,
                };
                let advanced = number(phase) + hz * dt;
                Answer::Wave {
                    value: real_of(number(centre) + number(depth) * shape),
                    phase: real_of(advanced.rem_euclid(1.0)),
                    hold: if advanced >= 1.0 {
                        Some(real_of(f64::from(draw >> 8) / f64::from(1u32 << 23) - 1.0))
                    } else {
                        None
                    },
                }
            }
            ParamWork::Taps { time, .. } => {
                let per_second = rate / win.frames as f64;
                let taps = (number(time) * per_second).round();
                Answer::Taps(if taps.is_nan() {
                    None
                } else {
                    Some(taps as usize)
                })
            }
            ParamWork::Level {
                buf,
                detect,
                held,
                attack,
                release,
                ..
            } => {
                let width = self.core.level_channels(buf);
                let loud = self.loudness(buf, width, detect, win);
                let time = follow_time(real_of(loud), held, attack, release);
                let (time, held) = (number(time), number(held));
                Answer::Value(real_of(if time > 0.0 && dt > 0.0 {
                    held + (loud - held) * (1.0 - (-dt / time).exp())
                } else {
                    loud
                }))
            }
            ParamWork::Track { key, .. } => Answer::Value(real_of(f64::from(key) / 127.0)),
            ParamWork::Step { at, count, .. } => {
                Answer::Value(real_of((number(at) + 1.0).rem_euclid(f64::from(count))))
            }
        }
    }

    fn loudness(&self, buf: u16, width: u16, detect: Detect, win: &Window) -> f64 {
        if width == 0 || win.frames == 0 {
            return 0.0;
        }
        let mut peak = 0.0f32;
        let mut sum = 0.0f64;
        for ch in 0..width as usize {
            for &value in self.core.sound.channel(buf, ch, win) {
                peak = peak.max(level(value).abs());
                sum += f64::from(level(value)) * f64::from(level(value));
            }
        }
        match detect {
            Detect::Peak => f64::from(peak),
            Detect::Rms => (sum / (width as usize * win.frames) as f64).sqrt(),
        }
    }

    fn heard_in(&self, buf: u16, channel: usize, win: &Window) -> Vec<f32> {
        let channel = self.core.sound.channel(buf, channel, win);
        channel.iter().map(|&value| level(value)).collect()
    }

    fn sound_of(
        &mut self,
        work: &AudioWork,
        place: &ChunkPlace,
        schedule: &SlotSchedule,
        rate: f64,
        nodes: &mut dyn AudioInstances,
    ) -> AudioAnswer {
        let win = &place.win;
        let mut value = 0.0;
        let channels = match work {
            AudioWork::Nothing => Vec::new(),
            AudioWork::Fold { list, folding } => {
                let mut channels = Vec::new();
                for fold in list {
                    let mut sum = self.heard_in(fold.from, 0, win);
                    for ch in 1..fold.width as usize {
                        for (to, from) in sum.iter_mut().zip(self.heard_in(fold.from, ch, win)) {
                            *to += from;
                        }
                    }
                    if *folding == Folding::Average {
                        let scale = 1.0 / fold.width as f32;
                        sum.iter_mut().for_each(|value| *value *= scale);
                    }
                    channels.push(sum);
                }
                channels
            }
            AudioWork::Plugin { call } => vec![self.called(call, place, schedule, nodes)],
            AudioWork::Mix { width, parts, .. } => {
                let mut channels = Vec::new();
                for ch in 0..*width as usize {
                    let mut sum = vec![0.0f32; win.frames];
                    for part in parts {
                        let gain = db_to_linear(number(part.gain)) as f32;
                        for (to, from) in sum.iter_mut().zip(self.heard_in(part.buf, ch, win)) {
                            *to += from * gain;
                        }
                    }
                    channels.push(sum);
                }
                channels
            }
            AudioWork::Fade {
                a,
                width,
                lane,
                from,
                gain,
                rise,
                fall,
                ..
            } => {
                let mut channels: Vec<Vec<f32>> = (0..*width as usize)
                    .map(|ch| self.heard_in(*a, ch, win))
                    .collect();
                let mut from = number(*from);
                let mut target = number(*gain);
                let mut done = 0;
                while done < win.frames {
                    let (len, row) = fade_piece(win.start, done, win.frames, schedule.quantum());
                    if let Some(db) = lane_at(&schedule.rows, row, *lane) {
                        target = db_to_linear(number(db));
                    }
                    from = number(fade_from(real_of(from), real_of(target)));
                    let ms = fade_time(real_of(from), real_of(target), *rise, *fall);
                    let seconds = number(ms) / 1000.0;
                    let step = if seconds > 0.0 {
                        1.0 / (seconds * rate)
                    } else {
                        f64::INFINITY
                    };
                    let delta = target - from;
                    let ramp = if step.is_finite() {
                        ((delta.abs() / step).ceil() as usize).min(len)
                    } else {
                        0
                    };
                    let ramped = |i: usize| {
                        let moved = from + delta.signum() * step * (i + 1) as f64;
                        if delta > 0.0 {
                            moved.min(target)
                        } else {
                            moved.max(target)
                        }
                    };
                    for channel in channels.iter_mut() {
                        for i in 0..len {
                            let gain = if i < ramp { ramped(i) } else { target };
                            channel[done + i] *= gain as f32;
                        }
                    }
                    from = if ramp < len { target } else { ramped(ramp - 1) };
                    done += len;
                }
                value = from;
                channels
            }
            AudioWork::Read {
                line,
                width,
                tap,
                seconds,
                max_time,
                shortest,
                longest,
                ..
            } => {
                let distance = read_distance(
                    real_of(number(*seconds) * rate),
                    real_of(number(*max_time) * rate),
                    real_of(*shortest as f64),
                    real_of(*longest as f64),
                );
                let from = number(self.core.sound.sweep_start(*tap, distance));
                value = number(distance);
                (0..*width as usize)
                    .map(|ch| {
                        (0..win.frames)
                            .map(|i| {
                                let t = (i + 1) as f64 / win.frames as f64;
                                let position = i as f64 - (from + (value - from) * t);
                                let whole = position.floor();
                                let y = |offset: i64| {
                                    let at = whole as i64 + offset;
                                    let ahead = at.max(0) as usize;
                                    let back = (-at).max(0) as usize;
                                    level(self.core.sound.tap(*line, ch, ahead, back))
                                };
                                hermite(y(-1), y(0), y(1), y(2), (position - whole) as f32)
                            })
                            .collect()
                    })
                    .collect()
            }
        };
        AudioAnswer {
            channels: channels.iter().map(|channel| samples(channel)).collect(),
            value: real_of(value),
        }
    }

    fn called(
        &mut self,
        call: &PluginCall,
        place: &ChunkPlace,
        schedule: &SlotSchedule,
        nodes: &mut dyn AudioInstances,
    ) -> Vec<f32> {
        let frames = place.win.frames;
        let quantum = schedule.quantum();
        let events = self.core.events_for(call.notes, place, quantum);
        for event in &events {
            let port = match event {
                Event::Note(NoteEvent::NoteOn { port, .. }) => *port,
                Event::Note(NoteEvent::NoteOff { port, .. }) => *port,
                _ => 0,
            };
            let reports = nodes.reports_note_end(call.instance as u32, port);
            self.core.note_handed(event, call.instance, reports);
        }
        let mut packed = Vec::new();
        self.core
            .sound
            .pack(call.input, call.input_width, &place.win, &mut packed);
        let input: Vec<f32> = packed.iter().map(|&value| level(value)).collect();
        let mut output = vec![0.0; call.output_width as usize * frames];
        nodes.process(
            call.instance as u32,
            &events,
            &input,
            &mut output,
            AudioChunk {
                input_channels: call.input_width,
                output_channels: call.output_width,
                frames: frames as u32,
            },
        );
        output
    }
}

fn hermite(y0: f32, y1: f32, y2: f32, y3: f32, x: f32) -> f32 {
    let c1 = 0.5 * (y2 - y0);
    let c2 = y0 - 2.5 * y1 + 2.0 * y2 - 0.5 * y3;
    let c3 = 0.5 * (y3 - y0) + 1.5 * (y1 - y2);
    ((c3 * x + c2) * x + c1) * x + y1
}

/// How many samples a channel of each of a program's delay lines holds, with
/// room for the interpolator.
fn ring_lens(program: &Program, rate: f64) -> Vec<usize> {
    let seconds = program.audio_ring_seconds.iter();
    seconds
        .map(|&seconds| (number(seconds) * rate).ceil() as usize + 4)
        .collect()
}

/// Helper creating a parameter sink plugin node.
fn param_sink(graph: &mut Graph) -> NodeId {
    graph.add(
        NodeKind::Plugin(Plugin {
            instance: 0,
            ports: PluginPorts {
                params: vec![ParamPort {
                    id: 0,
                    name: "p".into(),
                }],
                ..PluginPorts::default()
            },
        }),
        AT,
    )
}

/// The lane [`param_sink`]'s parameter is driven through.
const SINK: usize = SLOTS;

/// A row with every lane the graph can drive.
const WIDTH: usize = SLOTS + MAX_GRAPH_PARAMS + MAX_AUDIO_LANES;

/// A lane row: the slot table, and the sink's lane after it.
fn lanes() -> Vec<f64> {
    vec![0.0; SLOTS + 1]
}

fn ctx(frames: u32) -> BlockContext {
    BlockContext {
        sample_rate: 48_000.0,
        tempo_bpm: 120.0,
        frames,
        offset: 0,
        row: 0,
        block: frames,
    }
}

/// Samples, as the seconds a delay node wants.
fn seconds(samples: f64) -> f64 {
    samples / RATE
}

/// A context for a test with no automation in it.
fn audio_ctx(frames: u32) -> AudioContext<'static> {
    AudioContext {
        frames,
        quantum: 32,
        sample_rate: RATE,
        lanes: &[],
        lanes_per_row: 0,
    }
}

/// Compiles a graph, sizes its rings and hands it to the engine.
fn load(engine: &mut Rig, graph: &Graph) {
    let mut program = compile(graph, SLOTS).unwrap();
    let lens = ring_lens(&program, RATE);
    program.size_rings(&lens, &[]);
    adopt(engine, program);
}

fn adopt(engine: &mut Rig, program: Program) {
    engine.adopt(PreparedProgram {
        program,
        publication: 0,
    });
}

#[test]
fn engine_a_lane_the_graph_does_not_drive_keeps_the_daws_value() {
    let mut graph = Graph::new();
    let c = graph.add(NodeKind::Constant(Constant { value: real_of(0.25) }), AT);
    let out = param_sink(&mut graph);
    graph.connect(c, 0, out, 0);

    let mut engine = Rig::new();
    load(&mut engine, &graph);

    let mut slots = vec![0.9; SLOTS + 1];
    engine.run(&ctx(32), &mut slots);
    assert_eq!(slots[SINK], 0.25);
    assert_eq!(slots[1], 0.9, "an undriven slot is left alone");
}

#[test]
fn engine_the_daws_automation_can_be_read_shaped_and_written_back() {
    let mut graph = Graph::new();
    let input = graph.add(NodeKind::SlotIn(SlotIn { slot: 3 }), AT);
    let half = graph.add(
        NodeKind::Math(Math {
            op: MathOp::Multiply,
            b: real_of(0.5),
        }),
        AT,
    );
    let out = param_sink(&mut graph);
    graph.connect(input, 0, half, 0);
    graph.connect(half, 0, out, 0);

    let mut engine = Rig::new();
    load(&mut engine, &graph);

    let mut slots = lanes();
    slots[3] = 0.8;
    engine.run(&ctx(32), &mut slots);
    assert!((slots[SINK] - 0.4).abs() < 1e-12);
}

/// The parameter half's switch: one value below the threshold, another at
/// it and above.
#[test]
fn engine_a_switch_picks_by_threshold() {
    let mut graph = Graph::new();
    let control = graph.add(NodeKind::SlotIn(SlotIn { slot: 1 }), AT);
    let switch = graph.add(
        NodeKind::Switch(Switch {
            values: reals(&[0.2, 0.9]),
            thresholds: reals(&[0.6]),
        }),
        AT,
    );
    let out = param_sink(&mut graph);
    graph.connect(control, 0, switch, 0);
    graph.connect(switch, 0, out, 0);

    let mut engine = Rig::new();
    load(&mut engine, &graph);

    let mut slots = lanes();
    slots[1] = 0.59;
    engine.run(&ctx(32), &mut slots);
    assert_eq!(slots[SINK], 0.2);

    slots[1] = 0.6;
    engine.run(&ctx(32), &mut slots);
    assert_eq!(slots[SINK], 0.9, "the threshold itself is on");
}

/// More than two rungs: the last threshold the control has passed is the
/// one that wins, and below all of them the first value is what is read.
#[test]
fn engine_a_switch_climbs_a_ladder_of_thresholds() {
    let mut graph = Graph::new();
    let control = graph.add(NodeKind::SlotIn(SlotIn { slot: 1 }), AT);
    let switch = graph.add(
        NodeKind::Switch(Switch {
            values: reals(&[0.1, 0.4, 0.7]),
            thresholds: reals(&[0.3, 0.8]),
        }),
        AT,
    );
    let out = param_sink(&mut graph);
    graph.connect(control, 0, switch, 0);
    graph.connect(switch, 0, out, 0);

    let mut engine = Rig::new();
    load(&mut engine, &graph);

    let mut slots = lanes();
    for (control, expected) in [(0.0, 0.1), (0.29, 0.1), (0.3, 0.4), (0.79, 0.4), (0.8, 0.7)] {
        slots[1] = control;
        engine.run(&ctx(32), &mut slots);
        assert_eq!(slots[SINK], expected, "at {control}");
    }
}

/// Either side of a switch can be a signal rather than a number, which is
/// what makes it a router as well as a chooser.
#[test]
fn engine_a_switch_can_pick_between_two_signals() {
    let mut graph = Graph::new();
    let control = graph.add(NodeKind::SlotIn(SlotIn { slot: 1 }), AT);
    let a = graph.add(NodeKind::SlotIn(SlotIn { slot: 2 }), AT);
    let b = graph.add(NodeKind::SlotIn(SlotIn { slot: 3 }), AT);
    let switch = graph.add(
        NodeKind::Switch(Switch {
            values: reals(&[0.0, 1.0]),
            thresholds: reals(&[0.5]),
        }),
        AT,
    );
    let out = param_sink(&mut graph);
    graph.connect(control, 0, switch, 0);
    graph.connect(a, 0, switch, 1);
    graph.connect(b, 0, switch, 2);
    graph.connect(switch, 0, out, 0);

    let mut engine = Rig::new();
    load(&mut engine, &graph);

    let mut slots = lanes();
    slots[2] = 0.25;
    slots[3] = 0.75;
    slots[1] = 0.0;
    engine.run(&ctx(32), &mut slots);
    assert_eq!(slots[SINK], 0.25);

    slots[2] = 0.25;
    slots[3] = 0.75;
    slots[1] = 1.0;
    engine.run(&ctx(32), &mut slots);
    assert_eq!(slots[SINK], 0.75);
}

#[test]
fn engine_an_lfo_sweeps_and_comes_back() {
    let mut graph = Graph::new();
    let lfo = graph.add(
        NodeKind::Lfo(Lfo {
            waveform: Waveform::Saw,
            rate: Rate::Hz(real_of(1.0)),
            phase: real_of(0.0),
            depth: real_of(0.5),
            offset: real_of(0.5),
        }),
        AT,
    );
    let out = param_sink(&mut graph);
    graph.connect(lfo, 0, out, 0);

    let mut engine = Rig::new();
    load(&mut engine, &graph);

    let mut slots = lanes();
    let mut seen: Vec<f64> = Vec::new();
    // One second at 48 kHz in 32-sample sub-blocks: a whole cycle.
    for _ in 0..1500 {
        engine.run(&ctx(32), &mut slots);
        seen.push(slots[SINK]);
    }
    let lowest = seen.iter().cloned().fold(f64::INFINITY, f64::min);
    let highest = seen.iter().cloned().fold(f64::NEG_INFINITY, f64::max);
    assert!(lowest < 0.02, "a saw should reach the bottom, got {lowest}");
    assert!(highest > 0.98, "a saw should reach the top, got {highest}");
    assert!(seen.iter().all(|v| (0.0..=1.0).contains(v)));
}

#[test]
fn engine_tempo_sync_follows_the_host() {
    let mut graph = Graph::new();
    let lfo = graph.add(
        NodeKind::Lfo(Lfo {
            waveform: Waveform::Saw,
            // One cycle per beat: at 120 bpm that is 2 Hz.
            rate: Rate::Beats(real_of(1.0)),
            phase: real_of(0.0),
            depth: real_of(0.5),
            offset: real_of(0.5),
        }),
        AT,
    );
    let out = param_sink(&mut graph);
    graph.connect(lfo, 0, out, 0);

    let mut engine = Rig::new();
    load(&mut engine, &graph);

    // Quarter of a beat at 120 bpm = 0.125 s = 6000 samples.
    let mut slots = lanes();
    engine.run(
        &BlockContext {
            sample_rate: 48_000.0,
            tempo_bpm: 120.0,
            frames: 6000,
            offset: 0,
            row: 0,
            block: 6000,
        },
        &mut slots,
    );
    engine.run(
        &BlockContext {
            sample_rate: 48_000.0,
            tempo_bpm: 120.0,
            frames: 1,
            offset: 0,
            row: 0,
            block: 1,
        },
        &mut slots,
    );
    assert!(
        (slots[SINK] - 0.25).abs() < 1e-3,
        "expected a quarter cycle, got {}",
        slots[SINK]
    );
}

/// Helper creating a parameter feedback loop test graph.
fn feedback_graph(time: f64) -> (Graph, NodeId) {
    let mut graph = Graph::new();
    let seed = graph.add(NodeKind::SlotIn(SlotIn { slot: 1 }), AT);
    let read = graph.add(
        NodeKind::DelayRead(DelayRead {
            line: 0,
            ty: PortType::Param,
            max_time: real_of(1.0),
            time: real_of(time),
        }),
        AT,
    );
    // The loop: (input + what came back) * 0.5, written back to the line.
    let mixed = graph.add(
        NodeKind::Math(Math {
            op: MathOp::Add,
            b: real_of(0.0),
        }),
        AT,
    );
    let decayed = graph.add(
        NodeKind::Math(Math {
            op: MathOp::Multiply,
            b: real_of(0.5),
        }),
        AT,
    );
    let write = graph.add(
        NodeKind::DelayWrite(DelayWrite {
            line: 0,
            ty: PortType::Param,
        }),
        AT,
    );
    let out = param_sink(&mut graph);

    graph.connect(seed, 0, mixed, 0);
    graph.connect(read, 0, mixed, 1);
    graph.connect(mixed, 0, decayed, 0);
    graph.connect(decayed, 0, write, 0);
    graph.connect(decayed, 0, out, 0);
    (graph, write)
}

#[test]
fn engine_a_delay_line_carries_a_value_round_the_loop() {
    // One sub-block of delay, so each run reads exactly what the previous
    // one wrote.
    let (graph, _) = feedback_graph(32.0 / 48_000.0);
    let mut engine = Rig::new();
    load(&mut engine, &graph);

    let mut slots = lanes();
    slots[1] = 1.0;
    engine.run(&ctx(32), &mut slots);
    // (1 + 0) * 0.5
    assert!(
        (slots[SINK] - 0.5).abs() < 1e-9,
        "first pass: {}",
        slots[SINK]
    );

    slots[1] = 1.0;
    engine.run(&ctx(32), &mut slots);
    // (1 + 0.5) * 0.5 - the 0.5 came back round.
    assert!(
        (slots[SINK] - 0.75).abs() < 1e-9,
        "second pass: {}",
        slots[SINK]
    );
}

/// Verifies that recompiling does not clear parameter delay line state.
#[test]
fn engine_recompiling_does_not_empty_a_delay_line() {
    let (mut graph, _) = feedback_graph(32.0 / 48_000.0);
    let mut engine = Rig::new();
    load(&mut engine, &graph);

    let mut slots = lanes();
    slots[1] = 1.0;
    engine.run(&ctx(32), &mut slots);
    assert!((slots[SINK] - 0.5).abs() < 1e-9);

    // An unrelated node appears, as it does on any edit.
    graph.add(NodeKind::Constant(Constant { value: real_of(0.0) }), AT);
    load(&mut engine, &graph);

    slots[1] = 1.0;
    engine.run(&ctx(32), &mut slots);
    assert!(
        (slots[SINK] - 0.75).abs() < 1e-9,
        "the line was emptied by the swap: {}",
        slots[SINK]
    );
}

/// Verifies that parameter delay times below one sub-block are clamped to the minimum floor.
#[test]
fn engine_a_delay_shorter_than_a_sub_block_is_held_at_one() {
    let (graph, _) = feedback_graph(0.0);
    let mut engine = Rig::new();
    load(&mut engine, &graph);

    let mut slots = lanes();
    slots[1] = 1.0;
    engine.run(&ctx(32), &mut slots);
    slots[1] = 1.0;
    engine.run(&ctx(32), &mut slots);
    assert!(
        (slots[SINK] - 0.75).abs() < 1e-9,
        "a zero time should behave as one sub-block, not as zero: {}",
        slots[SINK]
    );
}

/// The DAW's buffer size is not the sub-block size, and the loop is defined
/// in sub-blocks. Two runs of 32 must land where one run of 64 does not.
#[test]
fn engine_the_loop_is_measured_in_sub_blocks_not_daw_blocks() {
    let (graph, _) = feedback_graph(2.0 * 32.0 / 48_000.0);
    let run = |frames: u32, passes: usize| {
        let mut engine = Rig::new();
        load(&mut engine, &graph);
        let mut slots = lanes();
        for _ in 0..passes {
            slots[1] = 1.0;
            engine.run(&ctx(frames), &mut slots);
        }
        slots[SINK]
    };
    // Same sub-block size, same answer, however the DAW hands us the block.
    assert!((run(32, 4) - run(32, 4)).abs() < 1e-12);
    // Two sub-blocks of delay: nothing has come back yet after two passes.
    assert!((run(32, 2) - 0.5).abs() < 1e-9);
    // By the third, it has.
    assert!(run(32, 3) > 0.5);
}

/// An instrument: one stereo output, and a notes port.
fn note_plugin(graph: &mut Graph, instance: usize) -> NodeId {
    graph.add(
        NodeKind::Plugin(Plugin {
            instance,
            ports: PluginPorts {
                audio_out: vec![2],
                audio_out_shown: Vec::new(),
                accepts_notes: true,
                ..PluginPorts::default()
            },
        }),
        AT,
    )
}

/// Records the note stream each instance was handed, so the note half can
/// be read off a run.
#[derive(Default)]
struct Heard(std::collections::BTreeMap<u32, Vec<Event>>);

impl AudioInstances for Heard {
    fn process(
        &mut self,
        instance: u32,
        notes: &[Event],
        _input: &[f32],
        output: &mut [f32],
        chunk: AudioChunk,
    ) {
        self.0.entry(instance).or_default().extend_from_slice(notes);
        for ch in 0..chunk.output_channels {
            output[chunk.channel(ch)].fill(0.0);
        }
    }
}

/// The note id an event carries, for reading a recorded stream back.
fn named(event: &Event) -> Option<i32> {
    match event {
        Event::Note(note) => note.note_id(),
        Event::Param(_) => None,
    }
}

fn note_on(key: i16, at: u32) -> Event {
    Event::Note(NoteEvent::NoteOn {
        note_id: None,
        port: 0,
        channel: 0,
        key,
        velocity: real_of(1.0),
        sample_offset: at,
    })
}

fn note_off(key: i16, at: u32) -> Event {
    Event::Note(NoteEvent::NoteOff {
        note_id: None,
        port: 0,
        channel: 0,
        key,
        velocity: real_of(0.0),
        sample_offset: at,
    })
}

/// Runs `graph` over one block with `events` on the DAW's note input, and
/// returns what each instance heard.
fn hear(graph: &Graph, events: &[Event], lanes: &[f64]) -> Heard {
    let mut engine = Rig::new();
    engine.prepare(8, &[]);
    load(&mut engine, graph);
    let mut heard = Heard::default();
    let width = WIDTH;
    let mut row = vec![0.0; width];
    row[..lanes.len().min(width)].copy_from_slice(&lanes[..lanes.len().min(width)]);
    // The wrapper's order: take the stream in, run the param half over the
    // row the note filters read, then the audio half.
    engine.begin_block(events);
    engine.run(&ctx(8), &mut row);
    engine.run_audio(
        &AudioContext {
            frames: 8,
            quantum: 32,
            sample_rate: RATE,
            lanes: &row,
            lanes_per_row: width,
        },
        &[0.0; 2 * 8],
        &mut [0.0; 2 * 8],
        &mut heard,
    );
    heard
}

/// A synth wired to the MIDI input hears the DAW; the one next to it does
/// not. This is the whole reason notes are routed rather than broadcast.
#[test]
fn engine_only_the_wired_instrument_hears_the_daw() {
    let mut graph = Graph::new();
    let notes = graph.add(NodeKind::NoteIn, AT);
    let wired = note_plugin(&mut graph, 0);
    let idle = note_plugin(&mut graph, 1);
    let mix = graph.add(
        NodeKind::Mix(Mix {
            channels: 2,
            inputs: 2,
            gains: Vec::new(),
        }),
        AT,
    );
    let out = graph.add(
        NodeKind::AudioOut(AudioOut {
            bus: 0,
            channels: 2,
        }),
        AT,
    );
    graph.connect(notes, 0, wired, 0);
    graph.connect(wired, 0, mix, 0);
    graph.connect(idle, 0, mix, 2);
    graph.connect(mix, 0, out, 0);

    let heard = hear(&graph, &[note_on(60, 0)], &[]);
    assert_eq!(heard.0[&0].len(), 1);
    assert!(
        heard.0.get(&1).is_none_or(Vec::is_empty),
        "an unwired notes port means silence, not everything"
    );
}

/// A shut gate holds the note-ons back and lets the releases through, so a
/// note that was sounding when it closed still gets its note-off. Blocking
/// everything would leave a hung note behind whatever threw this gate.
#[test]
fn engine_a_shut_note_gate_still_delivers_the_releases() {
    let mut graph = Graph::new();
    let notes = graph.add(NodeKind::NoteIn, AT);
    let control = graph.add(NodeKind::SlotIn(SlotIn { slot: 0 }), AT);
    let gate = graph.add(
        NodeKind::NoteGate(NoteGate {
            threshold: real_of(0.5),
            invert: false,
        }),
        AT,
    );
    let synth = note_plugin(&mut graph, 0);
    let out = graph.add(
        NodeKind::AudioOut(AudioOut {
            bus: 0,
            channels: 2,
        }),
        AT,
    );
    graph.connect(notes, 0, gate, 0);
    graph.connect(control, 0, gate, 1);
    graph.connect(gate, 0, synth, 0);
    graph.connect(synth, 0, out, 0);

    let events = [note_on(60, 0), note_off(55, 1)];

    // Slot 0 is this gate's control, and it is read straight out of the
    // lane row the DAW's automation rides in.
    let open = hear(&graph, &events, &[1.0]);
    assert_eq!(open.0[&0].len(), 2, "open, everything passes");

    let shut = hear(&graph, &events, &[0.0]);
    let seen = &shut.0[&0];
    assert_eq!(seen.len(), 1, "only the release got through");
    assert!(matches!(
        seen[0],
        Event::Note(NoteEvent::NoteOff { key: 55, .. })
    ));
}

/// A key mute drops both halves of the keys it names - the note-on went
/// too, so nothing is left waiting for a release - and leaves everything
/// else, including events that have no key at all.
#[test]
fn engine_a_key_mute_takes_both_halves_and_leaves_the_controllers() {
    let mut graph = Graph::new();
    let notes = graph.add(NodeKind::NoteIn, AT);
    let mute = graph.add(NodeKind::NoteMute(NoteMute { keys: vec![24] }), AT);
    let synth = note_plugin(&mut graph, 0);
    let out = graph.add(
        NodeKind::AudioOut(AudioOut {
            bus: 0,
            channels: 2,
        }),
        AT,
    );
    graph.connect(notes, 0, mute, 0);
    graph.connect(mute, 0, synth, 0);
    graph.connect(synth, 0, out, 0);

    let sustain = Event::Note(NoteEvent::Cc {
        port: 0,
        channel: 0,
        cc: 64,
        value: real_of(1.0),
        sample_offset: 2,
    });
    let heard = hear(
        &graph,
        &[note_on(24, 0), note_off(24, 1), sustain, note_on(60, 3)],
        &[],
    );
    let seen = &heard.0[&0];
    assert_eq!(seen.len(), 2, "both halves of key 24 are gone: {seen:?}");
    assert!(matches!(seen[0], Event::Note(NoteEvent::Cc { .. })));
    assert!(matches!(
        seen[1],
        Event::Note(NoteEvent::NoteOn { key: 60, .. })
    ));
}

/// A key split hands each band to its own instrument, and hands the pedal
/// to both of them. Dividing the keys is the whole job; an event that has
/// no key belongs to no band and so belongs to all of them.
#[test]
fn engine_a_key_split_divides_the_keys_and_shares_what_has_none() {
    let mut graph = Graph::new();
    let notes = graph.add(NodeKind::NoteIn, AT);
    let split = graph.add(
        NodeKind::KeySplit(KeySplit { splits: vec![60] }),
        AT,
    );
    let upper = note_plugin(&mut graph, 0);
    let lower = note_plugin(&mut graph, 1);
    let mix = graph.add(
        NodeKind::Mix(Mix {
            channels: 2,
            inputs: 2,
            gains: Vec::new(),
        }),
        AT,
    );
    let out = graph.add(
        NodeKind::AudioOut(AudioOut {
            bus: 0,
            channels: 2,
        }),
        AT,
    );
    graph.connect(notes, 0, split, 0);
    graph.connect(split, 0, upper, 0);
    graph.connect(split, 1, lower, 0);
    graph.connect(upper, 0, mix, 0);
    graph.connect(lower, 0, mix, 2);
    graph.connect(mix, 0, out, 0);

    let sustain = Event::Note(NoteEvent::Cc {
        port: 0,
        channel: 0,
        cc: 64,
        value: real_of(1.0),
        sample_offset: 3,
    });
    // 60 is the split, and it belongs to the band it names - the lower one.
    let heard = hear(
        &graph,
        &[note_on(72, 0), note_on(60, 1), note_on(48, 2), sustain],
        &[],
    );

    let keys = |instance: u32| -> Vec<i16> {
        heard.0[&instance]
            .iter()
            .filter_map(|event| match event {
                Event::Note(NoteEvent::NoteOn { key, .. }) => Some(*key),
                _ => None,
            })
            .collect()
    };
    assert_eq!(keys(0), vec![72], "the upper band takes 61 and above");
    assert_eq!(keys(1), vec![60, 48], "the lower band takes 60 and below");
    for instance in [0, 1] {
        assert!(
            heard.0[&instance]
                .iter()
                .any(|event| matches!(event, Event::Note(NoteEvent::Cc { cc: 64, .. }))),
            "the pedal reaches instance {instance}"
        );
    }
}

/// A MIDI filter narrows the stream by channel and by controller number,
/// and judges each event only on what it actually has: a note has a
/// channel but no controller number, so a CC list must not swallow it.
#[test]
fn engine_a_midi_filter_narrows_by_channel_and_controller() {
    let mut graph = Graph::new();
    let notes = graph.add(NodeKind::NoteIn, AT);
    let filter = graph.add(
        NodeKind::NoteFilter(NoteFilter {
            channels: vec![0],
            channel_mode: FilterMode::Keep,
            controllers: vec![64],
            controller_mode: FilterMode::Keep,
        }),
        AT,
    );
    let synth = note_plugin(&mut graph, 0);
    let out = graph.add(
        NodeKind::AudioOut(AudioOut {
            bus: 0,
            channels: 2,
        }),
        AT,
    );
    graph.connect(notes, 0, filter, 0);
    graph.connect(filter, 0, synth, 0);
    graph.connect(synth, 0, out, 0);

    let cc = |number: u8, channel: i16, at: u32| {
        Event::Note(NoteEvent::Cc {
            port: 0,
            channel,
            cc: number,
            value: real_of(1.0),
            sample_offset: at,
        })
    };
    let mut on_other_channel = note_on(60, 4);
    if let Event::Note(NoteEvent::NoteOn { channel, .. }) = &mut on_other_channel {
        *channel = 1;
    }

    let heard = hear(
        &graph,
        &[
            note_on(60, 0),   // channel 0: passes
            on_other_channel, // channel 1: dropped
            cc(64, 0, 1),     // the sustain pedal: passes
            cc(1, 0, 2),      // the mod wheel: dropped
            cc(64, 1, 3),     // right controller, wrong channel
        ],
        &[],
    );
    let seen = &heard.0[&0];
    assert_eq!(seen.len(), 2, "expected the note and the pedal: {seen:?}");
    assert!(matches!(
        seen[0],
        Event::Note(NoteEvent::NoteOn {
            key: 60,
            channel: 0,
            ..
        })
    ));
    assert!(matches!(seen[1], Event::Note(NoteEvent::Cc { cc: 64, .. })));
}

/// A parameter driving a controller: the value reaches the plugin as CC,
/// and joins the stream that was already flowing rather than replacing it.
#[test]
fn engine_a_parameter_reaches_the_plugin_as_a_controller() {
    let mut graph = Graph::new();
    let notes = graph.add(NodeKind::NoteIn, AT);
    let control = graph.add(NodeKind::SlotIn(SlotIn { slot: 0 }), AT);
    let pedal = graph.add(
        NodeKind::ParamToCc(ParamToCc { channel: 0, cc: 64 }),
        AT,
    );
    let synth = note_plugin(&mut graph, 0);
    let out = graph.add(
        NodeKind::AudioOut(AudioOut {
            bus: 0,
            channels: 2,
        }),
        AT,
    );
    graph.connect(control, 0, pedal, 0);
    graph.connect(notes, 0, pedal, 1);
    graph.connect(pedal, 0, synth, 0);
    graph.connect(synth, 0, out, 0);

    let heard = hear(&graph, &[note_on(60, 2)], &[1.0]);
    let seen = &heard.0[&0];
    assert_eq!(seen.len(), 2, "the pedal and the note: {seen:?}");
    assert!(
        matches!(
            seen[0],
            Event::Note(NoteEvent::Cc { cc: 64, value, sample_offset: 0, .. }) if value == real_of(1.0)
        ),
        "the controller comes first, at the sub-block start, so the \
         buffer stays sorted: {seen:?}"
    );
    assert!(matches!(
        seen[1],
        Event::Note(NoteEvent::NoteOn { key: 60, .. })
    ));
}

/// An unchanged controller is not an event. Re-sending it every sub-block
/// would fill a plugin's parameter queue with nothing and retrigger the
/// smoothing on plugins that ramp towards each incoming point.
#[test]
fn engine_a_controller_is_sent_once_until_it_moves() {
    let mut graph = Graph::new();
    let control = graph.add(NodeKind::SlotIn(SlotIn { slot: 0 }), AT);
    let pedal = graph.add(
        NodeKind::ParamToCc(ParamToCc { channel: 0, cc: 64 }),
        AT,
    );
    let synth = note_plugin(&mut graph, 0);
    let out = graph.add(
        NodeKind::AudioOut(AudioOut {
            bus: 0,
            channels: 2,
        }),
        AT,
    );
    graph.connect(control, 0, pedal, 0);
    graph.connect(pedal, 0, synth, 0);
    graph.connect(synth, 0, out, 0);

    let mut engine = Rig::new();
    engine.prepare(8, &[]);
    load(&mut engine, &graph);

    let width = WIDTH;
    let mut heard = Heard::default();
    let block = |engine: &mut Rig, value: f64, heard: &mut Heard| {
        let mut row = vec![0.0; width];
        row[0] = value;
        engine.begin_block(&[]);
        engine.run(&ctx(8), &mut row);
        engine.run_audio(
            &AudioContext {
                frames: 8,
                quantum: 32,
                sample_rate: RATE,
                lanes: &row,
                lanes_per_row: width,
            },
            &[0.0; 2 * 8],
            &mut [0.0; 2 * 8],
            heard,
        );
    };

    block(&mut engine, 1.0, &mut heard);
    assert_eq!(heard.0[&0].len(), 1, "the first value is always news");
    block(&mut engine, 1.0, &mut heard);
    assert_eq!(heard.0[&0].len(), 1, "and holding it is not");
    block(&mut engine, 0.0, &mut heard);
    assert_eq!(heard.0[&0].len(), 2, "letting go is");
}

/// A generator follows its parameter at sub-block resolution even when the
/// plugins are called once for the whole block.
///
/// Those are separate questions and must not be conflated: reading one
/// row's lane values and applying them to the whole chunk would make a
/// `Param -> CC` send one value per block however fast the parameter moved.
/// The sub-plugin call rate is a cost decision; the resolution of what it
/// is told is not.
#[test]
fn engine_a_generator_follows_its_lane_inside_a_whole_block_chunk() {
    let mut graph = Graph::new();
    let control = graph.add(NodeKind::SlotIn(SlotIn { slot: 0 }), AT);
    let pedal = graph.add(
        NodeKind::ParamToCc(ParamToCc { channel: 0, cc: 64 }),
        AT,
    );
    let synth = note_plugin(&mut graph, 0);
    let out = graph.add(
        NodeKind::AudioOut(AudioOut {
            bus: 0,
            channels: 2,
        }),
        AT,
    );
    graph.connect(control, 0, pedal, 0);
    graph.connect(pedal, 0, synth, 0);
    graph.connect(synth, 0, out, 0);

    let mut engine = Rig::new();
    engine.prepare(64, &[]);
    load(&mut engine, &graph);
    assert_eq!(
        engine.chunking(),
        Chunking::WholeBlock,
        "no feedback loop, so the plugin is called once for the block"
    );

    // Four sub-blocks of 16, with the control taking a different value in
    // each. One whole-block chunk covers all four.
    let width = WIDTH;
    let values = [0.0, 0.25, 0.25, 1.0];
    let mut rows = vec![0.0; width * values.len()];
    for (index, &value) in values.iter().enumerate() {
        let row = &mut rows[index * width..(index + 1) * width];
        row[0] = value;
        engine.run(
            &BlockContext {
                sample_rate: RATE,
                tempo_bpm: 120.0,
                frames: 16,
                offset: index as u32 * 16,
                row: index as u32,
                block: 64,
            },
            row,
        );
    }

    let mut heard = Heard::default();
    engine.run_audio(
        &AudioContext {
            frames: 64,
            quantum: 16,
            sample_rate: RATE,
            lanes: &rows,
            lanes_per_row: width,
        },
        &[0.0; 2 * 64],
        &mut [0.0; 2 * 64],
        &mut heard,
    );

    let seen = &heard.0[&0];
    let sent: Vec<(u32, f64)> = seen
        .iter()
        .filter_map(|event| match *event {
            Event::Note(NoteEvent::Cc {
                value,
                sample_offset,
                ..
            }) => Some((sample_offset, number(value))),
            _ => None,
        })
        .collect();
    assert_eq!(
        sent,
        vec![(0, 0.0), (16, 0.25), (48, 1.0)],
        "one event per move, timed at the sub-block it happened in, and \
         nothing for the sub-block where it held: {seen:?}"
    );
}

/// A sub-plugin is handed the graph's own note id, not the DAW's - and
/// gets one even when the DAW supplied none, which is the normal case for
/// anything that arrived as raw MIDI.
#[test]
fn engine_a_sub_plugin_is_handed_the_graphs_own_note_id() {
    let mut graph = Graph::new();
    let notes = graph.add(NodeKind::NoteIn, AT);
    let synth = note_plugin(&mut graph, 0);
    let out = graph.add(
        NodeKind::AudioOut(AudioOut {
            bus: 0,
            channels: 2,
        }),
        AT,
    );
    graph.connect(notes, 0, synth, 0);
    graph.connect(synth, 0, out, 0);

    // Two overlapping notes on one key, neither carrying an id.
    // Substituting the key number for a missing one would give both the
    // same id and make them one note.
    let heard = hear(&graph, &[note_on(60, 0), note_on(60, 1)], &[]);
    let ids: Vec<Option<i32>> = heard.0[&0].iter().map(named).collect();
    assert!(
        ids.iter().all(Option::is_some),
        "every note is named: {ids:?}"
    );
    assert_ne!(ids[0], ids[1], "and the two are told apart");
}

/// The note-off names the note the note-on opened, however little the DAW
/// said about it.
#[test]
fn engine_a_note_off_reaches_the_plugin_naming_the_note_it_ends() {
    let mut graph = Graph::new();
    let notes = graph.add(NodeKind::NoteIn, AT);
    let synth = note_plugin(&mut graph, 0);
    let out = graph.add(
        NodeKind::AudioOut(AudioOut {
            bus: 0,
            channels: 2,
        }),
        AT,
    );
    graph.connect(notes, 0, synth, 0);
    graph.connect(synth, 0, out, 0);

    let heard = hear(&graph, &[note_on(60, 0), note_off(60, 1)], &[]);
    let seen = &heard.0[&0];
    assert_eq!(seen.len(), 2);
    assert_eq!(named(&seen[0]), named(&seen[1]));
}

/// Every branch gated shut: the note reaches nobody, and the DAW is still
/// holding a voice for it. Telling it so at the end of the block is the
/// honest answer, and the only one that lets the voice go.
#[test]
fn engine_a_note_that_reaches_no_plugin_is_reported_ended() {
    let mut graph = Graph::new();
    let notes = graph.add(NodeKind::NoteIn, AT);
    let control = graph.add(NodeKind::SlotIn(SlotIn { slot: 0 }), AT);
    let gate = graph.add(
        NodeKind::NoteGate(NoteGate {
            threshold: real_of(0.5),
            invert: false,
        }),
        AT,
    );
    let synth = note_plugin(&mut graph, 0);
    let out = graph.add(
        NodeKind::AudioOut(AudioOut {
            bus: 0,
            channels: 2,
        }),
        AT,
    );
    graph.connect(notes, 0, gate, 0);
    graph.connect(control, 0, gate, 1);
    graph.connect(gate, 0, synth, 0);
    graph.connect(synth, 0, out, 0);

    let mut engine = Rig::new();
    engine.prepare(8, &[]);
    load(&mut engine, &graph);

    // Shut, so the note-on is swallowed before it reaches the synth.
    let mut heard = Heard::default();
    let width = WIDTH;
    let mut row = vec![0.0; width];
    engine.begin_block(&[note_on(60, 0)]);
    engine.run(&ctx(8), &mut row);
    engine.run_audio(
        &AudioContext {
            frames: 8,
            quantum: 32,
            sample_rate: RATE,
            lanes: &row,
            lanes_per_row: width,
        },
        &[0.0; 2 * 8],
        &mut [0.0; 2 * 8],
        &mut heard,
    );
    assert!(
        heard.0.get(&0).is_none_or(Vec::is_empty),
        "this gate held it back"
    );

    let mut ended = Vec::with_capacity(8);
    engine.end_block(&[], &mut ended);
    assert_eq!(ended.len(), 1, "and the DAW is told the note is over");
    assert_eq!(ended[0].key, 60);
}

/// A note that did reach a plugin waits for the plugin to say it is done.
#[test]
fn engine_a_delivered_note_is_reported_only_when_the_plugin_ends_it() {
    let mut graph = Graph::new();
    let notes = graph.add(NodeKind::NoteIn, AT);
    let synth = note_plugin(&mut graph, 0);
    let out = graph.add(
        NodeKind::AudioOut(AudioOut {
            bus: 0,
            channels: 2,
        }),
        AT,
    );
    graph.connect(notes, 0, synth, 0);
    graph.connect(synth, 0, out, 0);

    let mut engine = Rig::new();
    engine.prepare(8, &[]);
    load(&mut engine, &graph);

    let mut heard = Heard::default();
    let width = WIDTH;
    let row = vec![0.0; width];
    engine.begin_block(&[note_on(60, 0)]);
    engine.run(&ctx(8), &mut vec![0.0; width]);
    engine.run_audio(
        &AudioContext {
            frames: 8,
            quantum: 32,
            sample_rate: RATE,
            lanes: &row,
            lanes_per_row: width,
        },
        &[0.0; 2 * 8],
        &mut [0.0; 2 * 8],
        &mut heard,
    );
    let id = named(&heard.0[&0][0]).expect("the synth was told a name");

    let mut ended = Vec::with_capacity(8);
    engine.end_block(&[], &mut ended);
    assert!(ended.is_empty(), "the synth is still playing it");

    // What a CLAP sub-plugin sends when its voice finishes.
    engine.end_block(
        &[Event::Note(NoteEvent::NoteEnd {
            note_id: Some(id),
            port: 0,
            channel: 0,
            key: 60,
            sample_offset: 0,
        })],
        &mut ended,
    );
    assert_eq!(ended.len(), 1, "and now it is not");
}

/// Each sub-block gets its own events, once. Handing every chunk the whole
/// block would replay every note once per chunk.
#[test]
fn engine_a_note_lands_in_one_sub_block_only() {
    let mut graph = Graph::new();
    let notes = graph.add(NodeKind::NoteIn, AT);
    let synth = note_plugin(&mut graph, 0);
    let out = graph.add(
        NodeKind::AudioOut(AudioOut {
            bus: 0,
            channels: 2,
        }),
        AT,
    );
    graph.connect(notes, 0, synth, 0);
    graph.connect(synth, 0, out, 0);

    let mut engine = Rig::new();
    engine.prepare(8, &[]);
    load(&mut engine, &graph);
    let mut heard = Heard::default();
    let width = WIDTH;
    // A quantum of 4 cuts the block in two whatever the graph says, so the
    // same note must not appear in both halves.
    let mut row = vec![0.0; width * 2];
    engine.begin_block(&[note_on(60, 0), note_on(61, 5)]);
    for sub in 0..2 {
        engine.run(
            &BlockContext {
                sample_rate: RATE,
                tempo_bpm: 120.0,
                frames: 4,
                offset: sub as u32 * 4,
                row: sub as u32,
                block: 8,
            },
            &mut row[sub * width..(sub + 1) * width],
        );
    }
    engine.run_audio(
        &AudioContext {
            frames: 8,
            quantum: 4,
            sample_rate: RATE,
            lanes: &row,
            lanes_per_row: width,
        },
        &[0.0; 2 * 8],
        &mut [0.0; 2 * 8],
        &mut heard,
    );
    assert_eq!(heard.0[&0].len(), 2, "each note once: {:?}", heard.0[&0]);
}

/// The last sub-block of a block is still readable at the start of the
/// next one, and is not played twice.
///
/// The buffers carry that tail across the block boundary so a parameter op
/// reading at the first boundary of a block has the stream that was in
/// force there - without it every controller would snap back to its
/// starting value once per DAW block. The plugins were handed those events
/// last block and must not be handed them again, which is the half of the
/// arrangement nothing else would notice.
#[test]
fn engine_the_boundary_a_block_starts_on_belongs_to_the_block_before() {
    let mut graph = Graph::new();
    let notes = graph.add(NodeKind::NoteIn, AT);
    let synth = note_plugin(&mut graph, 0);
    let out = graph.add(
        NodeKind::AudioOut(AudioOut {
            bus: 0,
            channels: 2,
        }),
        AT,
    );
    graph.connect(notes, 0, synth, 0);
    graph.connect(synth, 0, out, 0);

    let mut engine = Rig::new();
    engine.prepare(8, &[]);
    load(&mut engine, &graph);

    let width = WIDTH;
    let mut heard = Heard::default();
    let block = |engine: &mut Rig, events: &[Event], heard: &mut Heard| {
        let mut row = vec![0.0; width];
        engine.begin_block(events);
        engine.run(&ctx(8), &mut row);
        engine.run_audio(
            &AudioContext {
                frames: 8,
                quantum: 32,
                sample_rate: RATE,
                lanes: &row,
                lanes_per_row: width,
            },
            &[0.0; 2 * 8],
            &mut [0.0; 2 * 8],
            heard,
        );
    };

    block(&mut engine, &[note_on(60, 0)], &mut heard);
    assert_eq!(heard.0[&0].len(), 1, "the synth is played the note");
    block(&mut engine, &[], &mut heard);
    assert_eq!(
        heard.0[&0].len(),
        1,
        "and not played it again: {:?}",
        heard.0[&0]
    );
}

/// A `CC In` reading the DAW's mod wheel into a parameter lane, one
/// sub-block behind the events - which is what a parameter signal's
/// resolution means, not a delay anybody chose.
#[test]
fn engine_a_controller_becomes_a_parameter_at_the_next_boundary() {
    let mut graph = Graph::new();
    let notes = graph.add(NodeKind::NoteIn, AT);
    let wheel = graph.add(NodeKind::CcIn(CcIn::default()), AT);
    let sink = param_sink(&mut graph);
    graph.connect(notes, 0, wheel, 0);
    graph.connect(wheel, 0, sink, 0);

    let mut engine = Rig::new();
    engine.prepare(64, &[]);
    load(&mut engine, &graph);

    let wheel_at = |value: f64, at: u32| {
        Event::Note(NoteEvent::Cc {
            port: 0,
            channel: 0,
            cc: 1,
            value: real_of(value),
            sample_offset: at,
        })
    };
    // Two sub-blocks of 8 frames each, with the wheel moving inside the
    // first one.
    let events = [wheel_at(1.0, 3)];
    let mut rows = vec![0.0; (SLOTS + 1) * 2];
    let width = SLOTS + 1;

    engine.begin_block(&events);
    for index in 0..2u32 {
        let (head, tail) = rows.split_at_mut(index as usize * width);
        let row = if index == 0 {
            &mut head[..]
        } else {
            &mut tail[..width]
        };
        engine.run(
            &BlockContext {
                sample_rate: RATE,
                tempo_bpm: 120.0,
                frames: 8,
                offset: index * 8,
                row: index,
                block: 16,
            },
            row,
        );
    }

    assert_eq!(
        rows[SINK], 0.0,
        "the first sub-block carries the value in effect at its start"
    );
    assert_eq!(
        rows[width + SINK],
        1.0,
        "the second carries where the wheel ended up in the first"
    );
}

/// The stream a `CC In` reads is the routed one, so a filter upstream of it
/// changes what it sees. That is the whole reason it takes a note input
/// instead of reading whatever the DAW sent.
#[test]
fn engine_a_filter_upstream_of_a_cc_in_changes_what_it_reads() {
    let build = |keep: u8| {
        let mut graph = Graph::new();
        let notes = graph.add(NodeKind::NoteIn, AT);
        let filter = graph.add(
            NodeKind::NoteFilter(NoteFilter {
                controllers: vec![keep],
                controller_mode: FilterMode::Keep,
                ..NoteFilter::default()
            }),
            AT,
        );
        let wheel = graph.add(NodeKind::CcIn(CcIn::default()), AT);
        let sink = param_sink(&mut graph);
        graph.connect(notes, 0, filter, 0);
        graph.connect(filter, 0, wheel, 0);
        graph.connect(wheel, 0, sink, 0);
        graph
    };

    let events = [Event::Note(NoteEvent::Cc {
        port: 0,
        channel: 0,
        cc: 1,
        value: real_of(1.0),
        sample_offset: 0,
    })];
    let read = |graph: &Graph| {
        let mut engine = Rig::new();
        engine.prepare(64, &[]);
        load(&mut engine, graph);
        let mut row = vec![0.0; SLOTS + 1];
        engine.begin_block(&events);
        // Twice: the first fills the buffers, the second reads them.
        for index in 0..2u32 {
            engine.run(
                &BlockContext {
                    sample_rate: RATE,
                    tempo_bpm: 120.0,
                    frames: 8,
                    offset: index * 8,
                    row: index,
                    block: 16,
                },
                &mut row,
            );
        }
        row[SINK]
    };

    assert_eq!(read(&build(1)), 1.0, "CC1 is kept, so the wheel is read");
    assert_eq!(
        read(&build(64)),
        0.0,
        "keeping only CC64 takes the wheel out before it gets here"
    );
}

/// A controller keeps its position between messages. A block with no CC in
/// it must hold the last value, not snap back to the starting one.
#[test]
fn engine_a_controller_holds_its_position() {
    let mut graph = Graph::new();
    let notes = graph.add(NodeKind::NoteIn, AT);
    let wheel = graph.add(NodeKind::CcIn(CcIn::default()), AT);
    let sink = param_sink(&mut graph);
    graph.connect(notes, 0, wheel, 0);
    graph.connect(wheel, 0, sink, 0);

    let mut engine = Rig::new();
    engine.prepare(64, &[]);
    load(&mut engine, &graph);

    let moved = [Event::Note(NoteEvent::Cc {
        port: 0,
        channel: 0,
        cc: 1,
        value: real_of(0.75),
        sample_offset: 0,
    })];
    let mut row = vec![0.0; SLOTS + 1];
    let block = |engine: &mut Rig, events: &[Event], row: &mut Vec<f64>| {
        engine.begin_block(events);
        engine.run(
            &BlockContext {
                sample_rate: RATE,
                tempo_bpm: 120.0,
                frames: 8,
                offset: 0,
                row: 0,
                block: 8,
            },
            row,
        );
    };

    block(&mut engine, &moved, &mut row);
    block(&mut engine, &[], &mut row);
    assert_eq!(row[SINK], 0.75, "the wheel moved and the value took");
    block(&mut engine, &[], &mut row);
    assert_eq!(row[SINK], 0.75, "and stayed where it was left");
}

/// A stand-in for the sub-plugins, so the engine's routing can be tested
/// without one. Each instance adds its own number to every sample, which
/// makes the order it ran in readable off the output.
struct Adders;

impl AudioInstances for Adders {
    fn process(
        &mut self,
        instance: u32,
        _notes: &[Event],
        input: &[f32],
        output: &mut [f32],
        chunk: AudioChunk,
    ) {
        for ch in 0..chunk.output_channels {
            let range = chunk.channel(ch);
            for (o, i) in output[range.clone()].iter_mut().zip(input[range].iter()) {
                *o = *i + (instance + 1) as f32;
            }
        }
    }
}

fn audio_plugin(graph: &mut Graph, instance: usize, latency: u32) -> NodeId {
    graph.add(
        NodeKind::Plugin(Plugin {
            instance,
            ports: PluginPorts {
                audio_in: vec![2],
                audio_out: vec![2],
                audio_out_shown: Vec::new(),
                latency,
                ..PluginPorts::default()
            },
        }),
        AT,
    )
}

#[test]
fn engine_audio_runs_through_two_plugins_in_order() {
    let mut graph = Graph::new();
    let input = graph.add(
        NodeKind::AudioIn(AudioIn {
            bus: 0,
            channels: 2,
        }),
        AT,
    );
    let first = audio_plugin(&mut graph, 0, 0);
    let second = audio_plugin(&mut graph, 1, 0);
    let output = graph.add(
        NodeKind::AudioOut(AudioOut {
            bus: 0,
            channels: 2,
        }),
        AT,
    );
    graph.connect(input, 0, first, 0);
    graph.connect(first, 0, second, 0);
    graph.connect(second, 0, output, 0);

    let mut engine = Rig::new();
    engine.prepare(64, &[2]);
    load(&mut engine, &graph);

    let daw_in = vec![10.0f32; 2 * 8];
    let mut daw_out = vec![0.0f32; 2 * 8];
    engine.run_audio(&audio_ctx(8), &daw_in, &mut daw_out, &mut Adders);

    // 10, then +1 from instance 0, then +2 from instance 1.
    assert!(
        daw_out.iter().all(|&s| (s - 13.0).abs() < 1e-6),
        "{daw_out:?}"
    );
}

/// Verifies latency compensation delay aligns parallel audio branches.
#[test]
fn engine_a_compensated_branch_arrives_with_the_late_one() {
    let mut graph = Graph::new();
    let input = graph.add(
        NodeKind::AudioIn(AudioIn {
            bus: 0,
            channels: 2,
        }),
        AT,
    );
    // Latency 4, but the stand-in does not actually delay: what is being
    // tested is that the *other* branch is delayed by the same 4.
    let slow = audio_plugin(&mut graph, 0, 4);
    let mix = graph.add(
        NodeKind::Mix(Mix {
            channels: 2,
            inputs: 2,
            // Empty is unity.
            gains: Vec::new(),
        }),
        AT,
    );
    let output = graph.add(
        NodeKind::AudioOut(AudioOut {
            bus: 0,
            channels: 2,
        }),
        AT,
    );
    graph.connect(input, 0, slow, 0);
    graph.connect(slow, 0, mix, 0);
    graph.connect(input, 0, mix, 2);
    graph.connect(mix, 0, output, 0);

    let mut engine = Rig::new();
    engine.prepare(64, &[2]);
    load(&mut engine, &graph);

    // An impulse on the first sample of each channel.
    let mut daw_in = vec![0.0f32; 2 * 8];
    daw_in[0] = 1.0;
    daw_in[8] = 1.0;
    let mut daw_out = vec![0.0f32; 2 * 8];
    engine.run_audio(&audio_ctx(8), &daw_in, &mut daw_out, &mut Adders);

    // The wet branch is the stand-in: input + 1, so the impulse shows as
    // 2.0 at sample 0 and 1.0 everywhere else. The dry branch is held back
    // 4 samples, so its impulse lands at sample 4 and nowhere else.
    assert!((daw_out[0] - 2.0).abs() < 1e-6, "wet at 0: {}", daw_out[0]);
    assert!(
        (daw_out[4] - 2.0).abs() < 1e-6,
        "dry arrives at 4: {}",
        daw_out[4]
    );
    assert!(
        (daw_out[1] - 1.0).abs() < 1e-6,
        "quiet between: {}",
        daw_out[1]
    );
}

/// The patch a new instance starts with has to be a through-connection, or
/// every fresh instance is silent.
#[test]
fn engine_the_default_patch_passes_audio_through() {
    let mut engine = Rig::new();
    engine.prepare(64, &[2]);
    load(&mut engine, &Graph::default_patch());

    let daw_in: Vec<f32> = (0..2 * 8).map(|i| i as f32 * 0.1).collect();
    let mut daw_out = vec![0.0f32; 2 * 8];
    engine.run_audio(&audio_ctx(8), &daw_in, &mut daw_out, &mut Adders);
    assert_eq!(daw_out, daw_in);
}

/// An unconnected `AudioOut` emits no `Output` op, so `run_audio` clears
/// the block itself.
#[test]
fn engine_an_unconnected_output_clears_the_daw_buffer() {
    let mut graph = Graph::new();
    graph.add(
        NodeKind::AudioOut(AudioOut {
            bus: 0,
            channels: 2,
        }),
        AT,
    );
    let mut engine = Rig::new();
    engine.prepare(64, &[2]);
    load(&mut engine, &graph);

    let daw_in = vec![0.0f32; 2 * 8];
    let mut daw_out = vec![7.0f32; 2 * 8];
    engine.run_audio(&audio_ctx(8), &daw_in, &mut daw_out, &mut Adders);
    assert!(daw_out.iter().all(|&s| s == 0.0), "{daw_out:?}");
}

/// A channel no op reaches is silence too.
#[test]
fn engine_a_channel_no_op_writes_is_cleared() {
    let mut graph = Graph::new();
    let input = graph.add(
        NodeKind::AudioIn(AudioIn {
            bus: 0,
            channels: 1,
        }),
        AT,
    );
    let output = graph.add(
        NodeKind::AudioOut(AudioOut {
            bus: 0,
            channels: 1,
        }),
        AT,
    );
    graph.connect(input, 0, output, 0);
    let mut engine = Rig::new();
    engine.prepare(64, &[2]);
    load(&mut engine, &graph);

    let daw_in = vec![1.0f32; 2 * 8];
    let mut daw_out = vec![7.0f32; 2 * 8];
    engine.run_audio(&audio_ctx(8), &daw_in, &mut daw_out, &mut Adders);
    assert!(daw_out[8..].iter().all(|&s| s == 0.0), "{daw_out:?}");
}

/// A line whose writer loses its input keeps its ring across the swap, so
/// the write head has to go on advancing for the line to drain.
#[test]
fn engine_a_delay_line_nothing_writes_drains_to_silence() {
    let mut graph = Graph::new();
    let input = stereo_in(&mut graph);
    let output = stereo_out(&mut graph);
    // A tap well inside a block, so a handful of blocks fills the ring.
    let (write, read) = audio_delay(&mut graph, 100.0);
    graph.connect(input, 0, write, 0);
    graph.connect(read, 0, output, 0);

    let mut engine = Rig::new();
    engine.prepare(128, &[2]);
    load(&mut engine, &graph);

    // Load the line.
    let daw_in = vec![1.0f32; 2 * 128];
    let mut daw_out = vec![0.0f32; 2 * 128];
    for _ in 0..8 {
        engine.run_audio(&audio_ctx(128), &daw_in, &mut daw_out, &mut Adders);
    }
    assert!(
        daw_out.iter().any(|s| s.abs() > 0.5),
        "the line is loaded: {:?}",
        &daw_out[..8]
    );

    // Pull the wire out of the write node and let the line run dry.
    graph.disconnect(write, 0);
    load(&mut engine, &graph);
    let silence = vec![0.0f32; 2 * 128];
    for _ in 0..32 {
        engine.run_audio(&audio_ctx(128), &silence, &mut daw_out, &mut Adders);
    }
    assert!(
        daw_out.iter().all(|s| s.abs() < 1e-6),
        "the ring should have drained: {:?}",
        &daw_out[..8]
    );
}

/// `prepare` is the only thing that allocates, so running without it - or
/// with a longer block than promised - has to be a no-op rather than a
/// panic or a read past the end.
#[test]
fn engine_running_audio_unprepared_does_nothing() {
    let mut graph = Graph::new();
    let input = graph.add(
        NodeKind::AudioIn(AudioIn {
            bus: 0,
            channels: 2,
        }),
        AT,
    );
    let output = graph.add(
        NodeKind::AudioOut(AudioOut {
            bus: 0,
            channels: 2,
        }),
        AT,
    );
    graph.connect(input, 0, output, 0);

    let mut engine = Rig::new();
    load(&mut engine, &graph);
    let daw_in = vec![1.0f32; 2 * 8];
    let mut daw_out = vec![0.0f32; 2 * 8];
    engine.run_audio(&audio_ctx(8), &daw_in, &mut daw_out, &mut Adders);
    assert!(daw_out.iter().all(|&s| s == 0.0));

    engine.prepare(4, &[2]);
    engine.run_audio(&audio_ctx(8), &daw_in, &mut daw_out, &mut Adders);
    assert!(
        daw_out.iter().all(|&s| s == 0.0),
        "8 frames were promised 4"
    );
}

#[test]
fn engine_recompiling_does_not_restart_a_running_lfo() {
    let mut graph = Graph::new();
    let lfo = graph.add(
        NodeKind::Lfo(Lfo {
            waveform: Waveform::Saw,
            rate: Rate::Hz(real_of(1.0)),
            phase: real_of(0.0),
            depth: real_of(0.5),
            offset: real_of(0.5),
        }),
        AT,
    );
    let out = param_sink(&mut graph);
    graph.connect(lfo, 0, out, 0);

    let mut engine = Rig::new();
    load(&mut engine, &graph);

    let mut slots = lanes();
    for _ in 0..200 {
        engine.run(&ctx(32), &mut slots);
    }
    let before = slots[SINK];
    assert!(before > 0.05, "the LFO should have moved by now");

    // Something unrelated changes - a new node appears - and the graph is
    // recompiled, as it is on every edit.
    graph.add(NodeKind::Constant(Constant { value: real_of(0.0) }), AT);
    load(&mut engine, &graph);
    engine.run(&ctx(1), &mut slots);

    assert!(
        (slots[SINK] - before).abs() < 0.01,
        "the phase jumped across a recompile: {before} -> {}",
        slots[SINK]
    );
}

/// An oscillator that no program runs has nothing to go on with.
#[test]
fn an_lfo_starts_over_after_a_release() {
    let mut graph = Graph::new();
    let lfo = graph.add(
        NodeKind::Lfo(Lfo {
            waveform: Waveform::Saw,
            rate: Rate::Hz(real_of(1.0)),
            phase: real_of(0.0),
            depth: real_of(0.5),
            offset: real_of(0.5),
        }),
        AT,
    );
    let out = param_sink(&mut graph);
    graph.connect(lfo, 0, out, 0);

    let mut engine = Rig::new();
    load(&mut engine, &graph);
    let mut slots = lanes();
    engine.run(&ctx(32), &mut slots);
    let first = slots[SINK];
    for _ in 0..200 {
        engine.run(&ctx(32), &mut slots);
    }
    assert!(slots[SINK] > first + 0.05, "the LFO should have moved by now");

    assert!(engine.release().is_some());
    load(&mut engine, &graph);
    engine.run(&ctx(32), &mut slots);
    assert_eq!(slots[SINK], first);
}

/// A sub-block runs where it is said to lie, whatever its number.
#[test]
fn a_sub_block_by_itself_needs_no_schedule() {
    let mut graph = Graph::new();
    let c = graph.add(NodeKind::Constant(Constant { value: real_of(0.25) }), AT);
    let out = param_sink(&mut graph);
    graph.connect(c, 0, out, 0);
    let mut engine = Rig::new();
    load(&mut engine, &graph);
    let mut slots = lanes();
    let at = BlockContext { row: 3, ..ctx(32) };
    engine.run(&at, &mut slots);
    assert_eq!(slots[SINK], 0.25);

    // A stage that is not there has nothing to run.
    let mut slots = lanes();
    engine.run_stage(usize::MAX, &at, &mut slots);
    engine.run_stage(7, &at, &mut slots);
    assert_eq!(slots, lanes());
}

/// Plays notes into the graph's MIDI input the way the wrapper does.
///
/// Notes reach a parameter op one sub-block after they arrive - the note
/// half fills the buffers at the end of each sub-block's evaluation, so a
/// reader sees the stream in effect at the boundary it just crossed. That
/// is one sub-block of setup in every test that plays something, which
/// says nothing about what the test is checking, so it lives here.
#[derive(Default)]
struct Keyboard {
    pending: Vec<Event>,
}

impl Keyboard {
    fn note(&mut self, event: &NoteEvent) {
        self.pending.push(Event::Note(*event));
    }

    /// Evaluate over the two sub-blocks it takes for what has been played
    /// to reach the parameter half.
    fn run(&mut self, engine: &mut Rig, frames: u32, slots: &mut [f64]) {
        engine.begin_block(&self.pending);
        for (row, offset) in [0, frames].into_iter().enumerate() {
            engine.run(
                &BlockContext {
                    sample_rate: 48_000.0,
                    tempo_bpm: 120.0,
                    frames,
                    offset,
                    row: row as u32,
                    block: frames * 2,
                },
                slots,
            );
        }
        self.pending.clear();
    }
}

/// A key switch watches one key, whatever has been played since - which
/// is exactly what a follow of the newest note cannot answer.
#[test]
fn engine_a_held_key_switch_follows_its_own_key() {
    let mut graph = Graph::new();
    let notes = graph.add(NodeKind::NoteIn, AT);
    let switch = graph.add(
        NodeKind::KeySwitch(KeySwitch {
            keys: vec![24],
            mode: KeySwitchMode::Hold,
            mute_keys: true,
        }),
        AT,
    );
    let synth = graph.add(
        NodeKind::Plugin(Plugin {
            instance: 0,
            ports: PluginPorts {
                audio_out: vec![2],
                audio_out_shown: Vec::new(),
                accepts_notes: true,
                ..PluginPorts::default()
            },
        }),
        AT,
    );
    let out = graph.add(
        NodeKind::AudioOut(AudioOut {
            bus: 0,
            channels: 2,
        }),
        AT,
    );
    graph.connect(notes, 0, switch, 0);
    graph.connect(switch, 0, synth, 0);
    graph.connect(synth, 0, out, 0);

    let mut engine = Rig::new();
    engine.prepare(8, &[]);
    load(&mut engine, &graph);
    let mut keys = Keyboard::default();

    let program = compile(&graph, SLOTS).unwrap();
    let lane = program
        .note_ops
        .iter()
        .find_map(|op| match op {
            audio_graph_engine::ir::NoteOp::Filter { gate, .. } => *gate,
            _ => None,
        })
        .expect("the key switch booked a gate lane") as usize;

    let width = WIDTH;
    let mut lanes = vec![0.0; width];
    keys.run(&mut engine, 8, &mut lanes);
    assert_eq!(lanes[lane], 0.0, "nothing is held yet");

    keys.note(&NoteEvent::NoteOn {
        note_id: Some(1),
        port: 0,
        channel: 0,
        key: 24,
        velocity: real_of(1.0),
        sample_offset: 0,
    });
    keys.run(&mut engine, 8, &mut lanes);
    assert_eq!(lanes[lane], 1.0, "the switch key is down");

    // A different key coming and going must not move it.
    keys.note(&NoteEvent::NoteOn {
        note_id: Some(2),
        port: 0,
        channel: 0,
        key: 60,
        velocity: real_of(1.0),
        sample_offset: 0,
    });
    keys.note(&NoteEvent::NoteOff {
        note_id: Some(2),
        port: 0,
        channel: 0,
        key: 60,
        velocity: real_of(0.0),
        sample_offset: 0,
    });
    keys.run(&mut engine, 8, &mut lanes);
    assert_eq!(lanes[lane], 1.0, "another key came and went");

    keys.note(&NoteEvent::NoteOff {
        note_id: Some(1),
        port: 0,
        channel: 0,
        key: 24,
        velocity: real_of(0.0),
        sample_offset: 0,
    });
    keys.run(&mut engine, 8, &mut lanes);
    assert_eq!(lanes[lane], 0.0, "let go");
}

/// A toggling switch moves on each strike and stays where it was put -
/// including across the recompile that every edit causes.
#[test]
fn engine_a_toggling_key_switch_latches_and_survives_a_recompile() {
    let mut graph = Graph::new();
    let notes = graph.add(NodeKind::NoteIn, AT);
    let switch = graph.add(
        NodeKind::KeySwitch(KeySwitch {
            keys: vec![24, 25],
            mode: KeySwitchMode::Toggle,
            mute_keys: true,
        }),
        AT,
    );
    let synth = graph.add(
        NodeKind::Plugin(Plugin {
            instance: 0,
            ports: PluginPorts {
                audio_out: vec![2],
                audio_out_shown: Vec::new(),
                accepts_notes: true,
                ..PluginPorts::default()
            },
        }),
        AT,
    );
    let out = graph.add(
        NodeKind::AudioOut(AudioOut {
            bus: 0,
            channels: 2,
        }),
        AT,
    );
    graph.connect(notes, 0, switch, 0);
    graph.connect(switch, 1, synth, 0);
    graph.connect(synth, 0, out, 0);

    let mut engine = Rig::new();
    engine.prepare(8, &[]);
    load(&mut engine, &graph);
    let mut keys = Keyboard::default();

    let lane = compile(&graph, SLOTS)
        .unwrap()
        .note_ops
        .iter()
        .find_map(|op| match op {
            audio_graph_engine::ir::NoteOp::Filter { gate, .. } => *gate,
            _ => None,
        })
        .expect("output b got a gate lane") as usize;

    let width = WIDTH;
    let mut lanes = vec![0.0; width];
    let strike = NoteEvent::NoteOn {
        note_id: Some(1),
        port: 0,
        channel: 0,
        key: 24,
        velocity: real_of(1.0),
        sample_offset: 0,
    };

    keys.run(&mut engine, 8, &mut lanes);
    assert_eq!(lanes[lane], 0.0, "b is shut until the switch is thrown");

    keys.note(&strike);
    keys.run(&mut engine, 8, &mut lanes);
    assert_eq!(lanes[lane], 1.0, "thrown");
    keys.run(&mut engine, 8, &mut lanes);
    assert_eq!(lanes[lane], 1.0, "and it stays thrown");

    // An unrelated edit, and the recompile it causes.
    graph.add(NodeKind::Constant(Constant { value: real_of(0.0) }), AT);
    load(&mut engine, &graph);
    let mut keys = Keyboard::default();
    keys.run(&mut engine, 8, &mut lanes);
    assert_eq!(lanes[lane], 1.0, "a recompile must not move the switch");

    keys.note(&strike);
    keys.run(&mut engine, 8, &mut lanes);
    assert_eq!(lanes[lane], 0.0, "thrown back");
}

/// One key stepping a parameter through its values, and staying where it
/// was put. With two values that is a plain toggle.
#[test]
fn engine_a_key_parameter_toggles_between_two_values() {
    let mut graph = Graph::new();
    let notes = graph.add(NodeKind::NoteIn, AT);
    let key = graph.add(
        NodeKind::KeyParam(KeyParam {
            mode: KeyParamMode::Toggle,
            keys: vec![24, 25],
            values: reals(&[0.2, 0.8]),
            mute_keys: true,
        }),
        AT,
    );
    let out = param_sink(&mut graph);
    graph.connect(notes, 0, key, 0);
    graph.connect(key, 0, out, 0);

    let mut engine = Rig::new();
    load(&mut engine, &graph);
    let mut keys = Keyboard::default();
    let mut slots = lanes();
    let strike = NoteEvent::NoteOn {
        note_id: Some(1),
        port: 0,
        channel: 0,
        key: 24,
        velocity: real_of(1.0),
        sample_offset: 0,
    };

    keys.run(&mut engine, 32, &mut slots);
    assert_eq!(slots[SINK], 0.2, "untouched, it reads its first value");

    keys.note(&strike);
    keys.run(&mut engine, 32, &mut slots);
    assert_eq!(slots[SINK], 0.8);
    keys.run(&mut engine, 32, &mut slots);
    assert_eq!(slots[SINK], 0.8, "one strike is one step, not one per run");

    keys.note(&strike);
    keys.run(&mut engine, 32, &mut slots);
    assert_eq!(slots[SINK], 0.2, "and round again");
}

/// A bank of keys, one value each: the last one struck wins, which is what
/// a row of switches does.
#[test]
fn engine_a_key_parameter_selects_by_the_last_key_struck() {
    let mut graph = Graph::new();
    let notes = graph.add(NodeKind::NoteIn, AT);
    let key = graph.add(
        NodeKind::KeyParam(KeyParam {
            mode: KeyParamMode::Select,
            keys: vec![24, 25, 26],
            values: reals(&[0.25, 0.5, 1.0]),
            mute_keys: true,
        }),
        AT,
    );
    let out = param_sink(&mut graph);
    graph.connect(notes, 0, key, 0);
    graph.connect(key, 0, out, 0);

    let mut engine = Rig::new();
    load(&mut engine, &graph);
    let mut keys = Keyboard::default();
    let mut slots = lanes();
    let strike = |key: i16| NoteEvent::NoteOn {
        note_id: Some(key as i32),
        port: 0,
        channel: 0,
        key,
        velocity: real_of(1.0),
        sample_offset: 0,
    };

    keys.run(&mut engine, 32, &mut slots);
    assert_eq!(slots[SINK], 0.25);

    keys.note(&strike(25));
    keys.run(&mut engine, 32, &mut slots);
    assert_eq!(slots[SINK], 0.5);

    keys.note(&strike(26));
    keys.run(&mut engine, 32, &mut slots);
    assert_eq!(slots[SINK], 1.0);

    // A key the bank does not name changes nothing.
    keys.note(&strike(60));
    keys.run(&mut engine, 32, &mut slots);
    assert_eq!(slots[SINK], 1.0);
}

/// Nothing wired to the notes port means no keys are read at all. An
/// unwired node that quietly followed the keyboard anyway would be a node
/// whose links say nothing about what it does.
#[test]
fn engine_a_key_parameter_with_no_notes_wired_stays_put() {
    let mut graph = Graph::new();
    let key = graph.add(
        NodeKind::KeyParam(KeyParam {
            mode: KeyParamMode::Select,
            keys: vec![24, 25],
            values: reals(&[0.25, 0.75]),
            mute_keys: true,
        }),
        AT,
    );
    let out = param_sink(&mut graph);
    graph.connect(key, 0, out, 0);

    let mut engine = Rig::new();
    load(&mut engine, &graph);
    let mut keys = Keyboard::default();
    let mut slots = lanes();

    keys.note(&NoteEvent::NoteOn {
        note_id: Some(1),
        port: 0,
        channel: 0,
        key: 25,
        velocity: real_of(1.0),
        sample_offset: 0,
    });
    keys.run(&mut engine, 32, &mut slots);
    assert_eq!(slots[SINK], 0.25);
}

/// A value socket wins over the number on its row, the same way `Math`'s
/// `b` gives way to its input - so a key switch can pick between two
/// signals, not only two numbers.
#[test]
fn engine_a_key_parameter_value_can_be_a_signal() {
    let mut graph = Graph::new();
    let notes = graph.add(NodeKind::NoteIn, AT);
    let signal = graph.add(NodeKind::SlotIn(SlotIn { slot: 3 }), AT);
    let key = graph.add(
        NodeKind::KeyParam(KeyParam {
            mode: KeyParamMode::Select,
            keys: vec![24, 25],
            values: reals(&[0.25, 0.75]),
            mute_keys: true,
        }),
        AT,
    );
    let out = param_sink(&mut graph);
    graph.connect(notes, 0, key, 0);
    // Socket 0 is the notes port, so value 2 is socket 2.
    graph.connect(signal, 0, key, 2);
    graph.connect(key, 0, out, 0);

    let mut engine = Rig::new();
    load(&mut engine, &graph);
    let mut keys = Keyboard::default();
    let mut slots = lanes();
    slots[3] = 0.6;
    keys.note(&NoteEvent::NoteOn {
        note_id: Some(1),
        port: 0,
        channel: 0,
        key: 25,
        velocity: real_of(1.0),
        sample_offset: 0,
    });
    keys.run(&mut engine, 32, &mut slots);
    assert_eq!(slots[SINK], 0.6, "the wired socket wins over the number");
}

#[test]
fn engine_the_gate_follows_held_notes() {
    let mut graph = Graph::new();
    let notes = graph.add(NodeKind::NoteIn, AT);
    let gate = graph.add(
        NodeKind::NoteFollow(NoteFollow { what: Follow::Gate }),
        AT,
    );
    let out = param_sink(&mut graph);
    graph.connect(notes, 0, gate, 0);
    graph.connect(gate, 0, out, 0);

    let mut engine = Rig::new();
    load(&mut engine, &graph);
    let mut keys = Keyboard::default();
    let mut slots = lanes();

    let on = |key: i16| NoteEvent::NoteOn {
        note_id: Some(key as i32),
        port: 0,
        channel: 0,
        key,
        velocity: real_of(1.0),
        sample_offset: 0,
    };
    let off = |key: i16| NoteEvent::NoteOff {
        note_id: Some(key as i32),
        port: 0,
        channel: 0,
        key,
        velocity: real_of(0.0),
        sample_offset: 0,
    };

    keys.run(&mut engine, 32, &mut slots);
    assert_eq!(slots[SINK], 0.0);

    keys.note(&on(60));
    keys.note(&on(64));
    keys.run(&mut engine, 32, &mut slots);
    assert_eq!(slots[SINK], 1.0);

    // Releasing one of two held notes must not drop this gate.
    keys.note(&off(60));
    keys.run(&mut engine, 32, &mut slots);
    assert_eq!(slots[SINK], 1.0);

    keys.note(&off(64));
    keys.run(&mut engine, 32, &mut slots);
    assert_eq!(slots[SINK], 0.0);
}

#[test]
fn engine_a_degenerate_graph_cannot_hand_a_nan_to_the_sub_plugin() {
    let mut graph = Graph::new();
    let a = graph.add(NodeKind::Constant(Constant { value: real_of(0.0) }), AT);
    let div = graph.add(
        NodeKind::Math(Math {
            op: MathOp::Curve,
            b: real_of(0.0),
        }),
        AT,
    );
    let out = param_sink(&mut graph);
    graph.connect(a, 0, div, 0);
    graph.connect(div, 0, out, 0);

    let mut engine = Rig::new();
    load(&mut engine, &graph);
    let mut slots = vec![0.5; SLOTS + 1];
    engine.run(&ctx(32), &mut slots);
    assert!(slots[SINK].is_finite());
    assert!((0.0..=1.0).contains(&slots[SINK]));
}

#[test]
fn engine_an_engine_with_no_program_leaves_everything_alone() {
    let mut engine = Rig::new();
    let mut slots = vec![0.3; SLOTS];
    engine.run(&ctx(32), &mut slots);
    assert!(slots.iter().all(|&v| v == 0.3));
    assert!(!engine.has_program());
}

/// A parameter read off audio, which only a program cut into stages can
/// express.
///
/// And read without latency: the follower's stage runs after the stage
/// that made the sound, and that stage covered the whole block, so the
/// window read for a sub-block is that sub-block's own. The first row
/// already carries the level of the first row's audio.
#[test]
fn engine_a_parameter_is_read_off_audio_in_the_sub_block_it_belongs_to() {
    const BLOCK: u32 = 64;
    const QUANTUM: u32 = 32;
    let width = WIDTH;

    let level = |detect: Detect, attack: f64, quiet_first: bool| -> [f64; 2] {
        let mut graph = Graph::new();
        let input = stereo_in(&mut graph);
        let follower = graph.add(
            NodeKind::EnvelopeFollower(EnvelopeFollower {
                detect,
                attack: real_of(attack),
                release: real_of(0.0),
            }),
            AT,
        );
        let sink = param_sink(&mut graph);
        graph.connect(input, 0, follower, 0);
        graph.connect(follower, 0, sink, 0);

        let mut engine = Rig::new();
        engine.prepare(BLOCK, &[2]);
        load(&mut engine, &graph);

        // Half scale, on the second sub-block only when asked: that is
        // what tells a reading of *this* row from a reading of the last.
        let mut daw_in = vec![0.5f32; 2 * BLOCK as usize];
        if quiet_first {
            for ch in 0..2usize {
                let at = ch * BLOCK as usize;
                daw_in[at..at + QUANTUM as usize].fill(0.0);
            }
        }
        let mut daw_out = vec![0.0f32; 2 * BLOCK as usize];
        let mut lanes = vec![0.0; width * 2];

        engine.begin_block(&[]);
        for stage in 0..engine.stages() {
            for row in 0..2usize {
                let context = BlockContext {
                    sample_rate: RATE,
                    tempo_bpm: 120.0,
                    frames: QUANTUM,
                    offset: row as u32 * QUANTUM,
                    row: row as u32,
                    block: BLOCK,
                };
                engine.run_stage(stage, &context, &mut lanes[row * width..(row + 1) * width]);
            }
            engine.run_audio_stage(
                stage,
                &AudioContext {
                    frames: BLOCK,
                    quantum: QUANTUM,
                    sample_rate: RATE,
                    lanes: &lanes,
                    lanes_per_row: width,
                },
                &daw_in,
                &mut daw_out,
                &mut Adders,
            );
        }
        [lanes[SINK], lanes[width + SINK]]
    };

    let steady = level(Detect::Peak, 0.0, false);
    assert!(
        (steady[0] - 0.5).abs() < 1e-6 && (steady[1] - 0.5).abs() < 1e-6,
        "the peak of a half-scale signal is a half: {steady:?}"
    );

    // The one that would fail if the reading were a sub-block behind.
    let late = level(Detect::Peak, 0.0, true);
    assert!(
        late[0] < 1e-6,
        "the first sub-block was silent, so its level is nothing: {late:?}"
    );
    assert!(
        (late[1] - 0.5).abs() < 1e-6,
        "and the second is read in the sub-block it belongs to: {late:?}"
    );

    // RMS of a constant is that constant; what separates them is a
    // transient, which the peak catches and the mean does not.
    let mean = level(Detect::Rms, 0.0, true);
    assert!(
        (mean[1] - 0.5).abs() < 1e-6,
        "the RMS of a steady half is a half: {mean:?}"
    );

    // An attack time holds the rise back, and never past the level.
    let slow = level(Detect::Peak, 0.050, false);
    assert!(
        slow[0] > 0.0 && slow[0] < 0.5 && slow[1] > slow[0] && slow[1] < 0.5,
        "an attack of 50 ms climbs towards the level over sub-blocks: {slow:?}"
    );
}

/// What the all-stages helpers cost, which is nothing until a level comes
/// back round to audio.
///
/// `run` + `run_audio` put every parameter of the block before any of its
/// audio, which is the order every caller with no audio to interleave
/// wants. The claim under test is where that parts company with the order
/// the stages describe: not wherever a follower appears, but only where
/// its value reaches audio again inside the same block.
#[test]
fn engine_the_all_stages_helpers_differ_only_where_a_level_reaches_audio() {
    const BLOCK: u32 = 64;
    const QUANTUM: u32 = 32;
    let width = WIDTH;

    // A ramp, so every block is louder than the one before it and a block
    // of latency cannot hide in a steady signal.
    let played = |staged: bool, ducked: bool| -> Vec<f32> {
        let mut graph = Graph::new();
        let input = stereo_in(&mut graph);
        let output = stereo_out(&mut graph);
        let follower = graph.add(
            NodeKind::EnvelopeFollower(EnvelopeFollower {
                detect: Detect::Peak,
                attack: real_of(0.0),
                release: real_of(0.0),
            }),
            AT,
        );
        graph.connect(input, 0, follower, 0);
        let mix = graph.add(
            NodeKind::Mix(Mix {
                channels: 2,
                inputs: 1,
                gains: reals(&[0.0]),
            }),
            AT,
        );
        graph.connect(input, 0, mix, 0);
        graph.connect(mix, 0, output, 0);
        if ducked {
            // The level drives the gain, so it reaches audio.
            graph.connect(follower, 0, mix, 1);
        } else {
            // The level goes to a sub-plugin parameter on an instance the
            // program has no audio for: read by the editor, and by nothing
            // this block renders.
            let sink = param_sink(&mut graph);
            graph.connect(follower, 0, sink, 0);
        }

        let mut engine = Rig::new();
        engine.prepare(BLOCK, &[2]);
        load(&mut engine, &graph);

        let mut heard = Vec::new();
        let mut lanes = vec![0.0; width * 2];
        for block in 0..4u32 {
            let value = 0.1 * (block + 1) as f32;
            let daw_in = vec![value; 2 * BLOCK as usize];
            let mut daw_out = vec![0.0f32; 2 * BLOCK as usize];
            let context = |row: usize| BlockContext {
                sample_rate: RATE,
                tempo_bpm: 120.0,
                frames: QUANTUM,
                offset: row as u32 * QUANTUM,
                row: row as u32,
                block: BLOCK,
            };
            let audio = AudioContext {
                frames: BLOCK,
                quantum: QUANTUM,
                sample_rate: RATE,
                lanes: &[],
                lanes_per_row: width,
            };
            engine.begin_block(&[]);
            if staged {
                for stage in 0..engine.stages() {
                    for row in 0..2usize {
                        engine.run_stage(
                            stage,
                            &context(row),
                            &mut lanes[row * width..(row + 1) * width],
                        );
                    }
                    engine.run_audio_stage(
                        stage,
                        &AudioContext {
                            lanes: &lanes,
                            ..audio
                        },
                        &daw_in,
                        &mut daw_out,
                        &mut Adders,
                    );
                }
            } else {
                for row in 0..2usize {
                    engine.run(&context(row), &mut lanes[row * width..(row + 1) * width]);
                }
                engine.run_audio(
                    &AudioContext {
                        lanes: &lanes,
                        ..audio
                    },
                    &daw_in,
                    &mut daw_out,
                    &mut Adders,
                );
            }
            // The gain that came out, not the sample: what lags is the
            // level read, and the signal it is applied to is this block's
            // either way, so the two are not shifted copies of each other.
            heard.push(daw_out[BLOCK as usize - 1] / value);
        }
        heard
    };

    // The level reaches nothing this block renders, so the two orders make
    // the same sound and only the lane is a block old.
    assert_eq!(
        played(true, false),
        played(false, false),
        "a level nothing plays costs nothing to read late"
    );

    // And where it does reach audio, the batched order renders each block
    // against the level of the one before it.
    let staged = played(true, true);
    let batched = played(false, true);
    assert_ne!(staged, batched, "a gain read late is a different sound");
    assert!(
        batched
            .iter()
            .skip(1)
            .zip(&staged)
            .all(|(late, then)| (late - then).abs() < 1e-6),
        "and late by exactly one block: {batched:?} against {staged:?}"
    );
}

/// A second delay somewhere else in the patch does not change what the
/// first one does.
///
/// Both loops run in the same stage, and a `DelayWrite` gives its source
/// buffer up as soon as it is *compiled*, while what it writes runs at the
/// end of the stage. Anything compiled in between can be handed that
/// buffer and fill it with something else, and the line then carries the
/// other loop's signal instead of its own.
///
/// Three things have to line up for it: the write has to be the buffer's
/// last reader - a tap on the
/// delayed side rather than on the sum, which is an ordinary way to wire a
/// delay; the other loop has to be compiled after it; and it has to hold a
/// node that asks the pool for a buffer rather than accumulating into one
/// it already has, which a mix does and a plugin does not.
#[test]
fn engine_a_second_delay_does_not_reach_into_the_first() {
    // in --> mix in 1 --> write(0)       the sum goes only to the line
    //        read(0) -+-> mix in 2
    //                 +-> out            and the tap is on the delayed side
    let patch = |second: bool| -> Vec<f32> {
        let mut graph = Graph::new();
        let input = stereo_in(&mut graph);
        let output = stereo_out(&mut graph);
        let (write, read) = audio_delay(&mut graph, 32.0);
        let mix = graph.add(
            NodeKind::Mix(Mix {
                channels: 2,
                inputs: 2,
                gains: reals(&[0.0, linear_to_db(0.5)]),
            }),
            AT,
        );
        graph.connect(input, 0, mix, 0);
        graph.connect(read, 0, mix, 2);
        graph.connect(mix, 0, write, 0);
        graph.connect(read, 0, output, 0);

        if second {
            // A whole second loop, wired to nothing that is heard. It
            // exists to be compiled after the first one's write and to ask
            // the pool for a buffer while doing it.
            let other = graph.add(
                NodeKind::DelayWrite(DelayWrite {
                    line: 1,
                    ty: PortType::stereo(),
                }),
                AT,
            );
            let tap = graph.add(
                NodeKind::DelayRead(DelayRead {
                    line: 1,
                    ty: PortType::stereo(),
                    max_time: real_of(0.05),
                    time: real_of(seconds(64.0)),
                }),
                AT,
            );
            let plugin = audio_plugin(&mut graph, 0, 0);
            let sum = graph.add(
                NodeKind::Mix(Mix {
                    channels: 2,
                    inputs: 2,
                    gains: reals(&[0.0, linear_to_db(0.5)]),
                }),
                AT,
            );
            graph.connect(input, 0, sum, 0);
            graph.connect(tap, 0, plugin, 0);
            graph.connect(plugin, 0, sum, 2);
            graph.connect(sum, 0, other, 0);
        }

        let mut engine = Rig::new();
        engine.prepare(128, &[2]);
        load(&mut engine, &graph);
        let mut heard = Vec::new();
        for block in 0..3 {
            let daw_in = if block == 0 {
                impulse(128, 0)
            } else {
                vec![0.0; 2 * 128]
            };
            let mut daw_out = vec![0.0f32; 2 * 128];
            engine.run_audio(&audio_ctx(128), &daw_in, &mut daw_out, &mut Adders);
            heard.extend_from_slice(&daw_out[..128]);
        }
        heard
    };

    let alone = patch(false);
    assert!(
        alone.iter().filter(|v| v.abs() > 0.05).count() >= 3,
        "the delay repeats on its own"
    );
    assert_eq!(alone, patch(true), "and repeats the same beside another");
}

fn stereo_in(graph: &mut Graph) -> NodeId {
    graph.add(
        NodeKind::AudioIn(AudioIn {
            bus: 0,
            channels: 2,
        }),
        AT,
    )
}

fn stereo_out(graph: &mut Graph) -> NodeId {
    graph.add(
        NodeKind::AudioOut(AudioOut {
            bus: 0,
            channels: 2,
        }),
        AT,
    )
}

/// The two halves of an audio delay line, on line 0, `samples` back.
fn audio_delay(graph: &mut Graph, samples: f64) -> (NodeId, NodeId) {
    let write = graph.add(
        NodeKind::DelayWrite(DelayWrite {
            line: 0,
            ty: PortType::stereo(),
        }),
        AT,
    );
    let read = graph.add(
        NodeKind::DelayRead(DelayRead {
            line: 0,
            ty: PortType::stereo(),
            // Room for the sweeps, without asking for a megabyte of ring.
            max_time: real_of(0.05),
            time: real_of(seconds(samples)),
        }),
        AT,
    );
    (write, read)
}

/// An impulse on both channels of a stereo block.
fn impulse(frames: usize, at: usize) -> Vec<f32> {
    let mut daw_in = vec![0.0f32; 2 * frames];
    daw_in[at] = 1.0;
    daw_in[frames + at] = 1.0;
    daw_in
}

/// Verifies that an audio delay line outputs samples delayed by the expected duration.
#[test]
fn engine_an_audio_delay_returns_what_it_was_given_a_delay_later() {
    let mut graph = Graph::new();
    let input = stereo_in(&mut graph);
    let output = stereo_out(&mut graph);
    let (write, read) = audio_delay(&mut graph, 64.0);
    graph.connect(input, 0, write, 0);
    graph.connect(read, 0, output, 0);

    let mut engine = Rig::new();
    engine.prepare(128, &[2]);
    load(&mut engine, &graph);

    // One impulse in the first block, then silence.
    let mut heard = Vec::new();
    for block in 0..3 {
        let daw_in = if block == 0 {
            impulse(128, 8)
        } else {
            vec![0.0; 2 * 128]
        };
        let mut daw_out = vec![0.0f32; 2 * 128];
        engine.run_audio(&audio_ctx(128), &daw_in, &mut daw_out, &mut Adders);
        heard.extend_from_slice(&daw_out[..128]);
    }

    let peak = heard
        .iter()
        .enumerate()
        .max_by(|a, b| a.1.abs().partial_cmp(&b.1.abs()).unwrap())
        .unwrap();
    assert_eq!(peak.0, 8 + 64, "the impulse comes back 64 samples later");
    assert!((peak.1 - 1.0).abs() < 1e-3, "and at its original height");
}

/// Verifies that delay times shorter than chunk length are clamped to minimum safe distance.
#[test]
fn engine_a_delay_shorter_than_a_chunk_is_held_at_the_chunk() {
    let mut graph = Graph::new();
    let input = stereo_in(&mut graph);
    let output = stereo_out(&mut graph);
    let (write, read) = audio_delay(&mut graph, 1.0);
    graph.connect(input, 0, write, 0);
    graph.connect(read, 0, output, 0);

    let mut engine = Rig::new();
    engine.prepare(128, &[2]);
    load(&mut engine, &graph);

    let mut heard = Vec::new();
    for block in 0..2 {
        let daw_in = if block == 0 {
            impulse(128, 0)
        } else {
            vec![0.0; 2 * 128]
        };
        let mut daw_out = vec![0.0f32; 2 * 128];
        engine.run_audio(&audio_ctx(128), &daw_in, &mut daw_out, &mut Adders);
        heard.extend_from_slice(&daw_out[..128]);
    }
    let peak = heard
        .iter()
        .position(|v| v.abs() > 0.5)
        .expect("the impulse came back");
    // The quantum is 32, plus the two samples the interpolator needs ahead
    // of the read pointer. Asked for 1: a delay of 1 would have read this
    // chunk's own writes.
    assert_eq!(peak, 34);
}

/// Verifies consistent delay feedback behavior across different host block sizes.
#[test]
fn engine_a_feedback_loop_sounds_the_same_at_any_block_size() {
    let mut graph = Graph::new();
    let input = stereo_in(&mut graph);
    let output = stereo_out(&mut graph);
    let (write, read) = audio_delay(&mut graph, 64.0);
    let mix = graph.add(
        NodeKind::Mix(Mix {
            channels: 2,
            inputs: 2,
            // Empty is unity.
            gains: Vec::new(),
        }),
        AT,
    );
    graph.connect(input, 0, mix, 0);
    graph.connect(read, 0, mix, 2);
    graph.connect(mix, 0, output, 0);
    graph.connect(mix, 0, write, 0);

    let render = |block: usize| -> Vec<f32> {
        let mut engine = Rig::new();
        engine.prepare(512, &[2]);
        load(&mut engine, &graph);
        let mut heard = Vec::new();
        let mut at = 0;
        while at < 512 {
            let mut daw_in = vec![0.0f32; 2 * block];
            if at == 0 {
                daw_in[0] = 1.0;
                daw_in[block] = 1.0;
            }
            let mut daw_out = vec![0.0f32; 2 * block];
            engine.run_audio(&audio_ctx(block as u32), &daw_in, &mut daw_out, &mut Adders);
            heard.extend_from_slice(&daw_out[..block]);
            at += block;
        }
        heard
    };

    let big = render(512);
    let small = render(64);
    assert_eq!(big.len(), small.len());
    let worst = big
        .iter()
        .zip(&small)
        .map(|(a, b)| (a - b).abs())
        .fold(0.0f32, f32::max);
    assert!(worst < 1e-6, "largest difference {worst}");
    assert!(
        big.iter().filter(|v| v.abs() > 0.5).count() >= 4,
        "the loop repeated"
    );
}

/// However a block is cut, as long as the cuts fall between sub-blocks.
#[test]
fn a_feedback_loop_sounds_the_same_however_it_is_cut() {
    let mut graph = Graph::new();
    let input = stereo_in(&mut graph);
    let output = stereo_out(&mut graph);
    let (write, read) = audio_delay(&mut graph, 64.0);
    let mix = graph.add(
        NodeKind::Mix(Mix {
            channels: 2,
            inputs: 2,
            gains: Vec::new(),
        }),
        AT,
    );
    graph.connect(input, 0, mix, 0);
    graph.connect(read, 0, mix, 2);
    graph.connect(mix, 0, output, 0);
    graph.connect(mix, 0, write, 0);

    let render = |blocks: &[usize]| -> Vec<f32> {
        let mut engine = Rig::new();
        engine.prepare(512, &[2]);
        load(&mut engine, &graph);
        let mut heard = Vec::new();
        for &block in blocks {
            let daw_in: Vec<f32> = (0..2 * block)
                .map(|i| (heard.len() + i % block) as f32)
                .collect();
            let mut daw_out = vec![0.0f32; 2 * block];
            engine.run_audio(&audio_ctx(block as u32), &daw_in, &mut daw_out, &mut Adders);
            heard.extend_from_slice(&daw_out[..block]);
        }
        heard
    };

    let whole = render(&[502]);
    assert!(whole[501] > 501.0, "the echo is heard");
    assert_eq!(whole, render(&[96, 32, 160, 64, 150]));
    assert_eq!(whole, render(&[32, 470]));
}

/// A plugin called for a sub-block is handed that sub-block, with its
/// channels where the format says they are.
///
/// The pool packs channels at the DAW block's length so that a buffer
/// written whole can be read a piece at a time; a plugin wants them packed
/// at the length of the call. The two agree only when the chunk is the
/// whole block, which is every program without a feedback loop in it - so
/// the gather and scatter that bridge them are reached exactly when
/// nothing else in the suite looks, and a mistake there would put the
/// right samples on the wrong channel.
#[test]
fn engine_a_plugin_called_for_a_sub_block_is_handed_that_sub_block() {
    /// Records every input region it is given, channel by channel.
    #[derive(Default)]
    struct Records {
        heard: Vec<Vec<f32>>,
    }
    impl AudioInstances for Records {
        fn process(
            &mut self,
            _instance: u32,
            _notes: &[Event],
            input: &[f32],
            output: &mut [f32],
            chunk: AudioChunk,
        ) {
            self.heard.resize(chunk.input_channels as usize, Vec::new());
            for ch in 0..chunk.input_channels {
                self.heard[ch as usize].extend_from_slice(&input[chunk.channel(ch)]);
            }
            for ch in 0..chunk.output_channels {
                output[chunk.channel(ch)].fill(0.0);
            }
        }
    }

    let mut graph = Graph::new();
    let input = stereo_in(&mut graph);
    let output = stereo_out(&mut graph);
    let plugin = audio_plugin(&mut graph, 0, 0);
    // The plugin sits *inside* the loop, which is the only way it runs at
    // sub-block granularity. The delay is longer than the block, so within
    // the one block played nothing has come back round yet and what
    // reaches the plugin is the DAW's own input - anything summed into it
    // would hide a packing mistake behind arithmetic.
    let (write, read) = audio_delay(&mut graph, 4096.0);
    let mix = graph.add(
        NodeKind::Mix(Mix {
            channels: 2,
            inputs: 2,
            gains: Vec::new(),
        }),
        AT,
    );
    graph.connect(input, 0, mix, 0);
    graph.connect(read, 0, mix, 2);
    graph.connect(mix, 0, plugin, 0);
    graph.connect(plugin, 0, write, 0);
    graph.connect(plugin, 0, output, 0);

    const BLOCK: usize = 128;
    let mut engine = Rig::new();
    engine.prepare(BLOCK as u32, &[2]);
    load(&mut engine, &graph);
    assert_eq!(
        engine.chunking(),
        Chunking::SubBlock,
        "the loop is what makes the chunks short"
    );

    // Two channels a mixup could not confuse for one another.
    let mut daw_in = vec![0.0f32; 2 * BLOCK];
    for i in 0..BLOCK {
        daw_in[i] = i as f32;
        daw_in[BLOCK + i] = -(i as f32);
    }
    let mut records = Records::default();
    engine.run_audio(
        &audio_ctx(BLOCK as u32),
        &daw_in,
        &mut vec![0.0; 2 * BLOCK],
        &mut records,
    );

    assert_eq!(records.heard.len(), 2, "a stereo plugin heard two channels");
    assert_eq!(
        records.heard[0],
        daw_in[..BLOCK],
        "the chunks join back into the block that was played"
    );
    assert_eq!(records.heard[1], daw_in[BLOCK..], "and so does the other");
}

/// How often a plugin is called is settled by the shape of the patch, not
/// by a number somebody is turning.
///
/// The plugin here feeds a delay line and nothing brings its output back
/// round, so it is not in a loop and is called once for the block -
/// whatever the delay time is set to. A plugin that *is* in a loop is
/// covered by `engine_a_plugin_called_for_a_sub_block_is_handed_that_sub_block`.
#[test]
fn engine_moving_the_delay_time_does_not_change_how_often_a_plugin_runs() {
    struct Counting(usize);
    impl AudioInstances for Counting {
        fn process(
            &mut self,
            _instance: u32,
            _notes: &[Event],
            _input: &[f32],
            output: &mut [f32],
            chunk: AudioChunk,
        ) {
            self.0 += 1;
            for ch in 0..chunk.output_channels {
                output[chunk.channel(ch)].fill(0.0);
            }
        }
    }

    let mut graph = Graph::new();
    let input = stereo_in(&mut graph);
    let output = stereo_out(&mut graph);
    let plugin = audio_plugin(&mut graph, 0, 0);
    let (write, read) = audio_delay(&mut graph, 64.0);
    let time = graph.add(NodeKind::SlotIn(SlotIn { slot: 0 }), AT);
    graph.connect(input, 0, plugin, 0);
    graph.connect(plugin, 0, write, 0);
    graph.connect(read, 0, output, 0);
    graph.connect(time, 0, read, 0);

    let program = compile(&graph, SLOTS).unwrap();
    let lane = program
        .audio_ops
        .iter()
        .find_map(|op| match op {
            AudioOp::DelayRead { lane, .. } => *lane,
            _ => None,
        })
        .expect("the wired time control got a lane") as usize;

    let run = |seconds: f64| -> usize {
        let mut engine = Rig::new();
        engine.prepare(128, &[2]);
        load(&mut engine, &graph);
        let lanes_per_row = lane + 1;
        let lanes = vec![seconds; lanes_per_row * 4];
        let mut counting = Counting(0);
        engine.run_audio(
            &AudioContext {
                frames: 128,
                quantum: 32,
                sample_rate: RATE,
                lanes: &lanes,
                lanes_per_row,
            },
            &vec![0.0; 2 * 128],
            &mut vec![0.0; 2 * 128],
            &mut counting,
        );
        counting.0
    };
    assert_eq!(run(seconds(64.0)), run(seconds(400.0)));
    assert_eq!(
        run(seconds(64.0)),
        1,
        "one call for the block: the line carries nothing back to it"
    );
}

/// Verifies continuous tape-style pitch modulation during delay time sweeps without clicks.
///
/// The signal written into the line is a ramp of one per sample, so what
/// comes out is `t - d(t)` and the step between output samples is the
/// playback speed. Holding the time still gives a step of exactly 1; a
/// time shortening by a quarter of a sample per sample gives 1.25, which is
/// the pitch moving up.
#[test]
fn engine_sweeping_the_delay_time_moves_the_pitch_without_a_step() {
    let mut graph = Graph::new();
    let input = stereo_in(&mut graph);
    let output = stereo_out(&mut graph);
    let (write, read) = audio_delay(&mut graph, 200.0);
    let time = graph.add(NodeKind::SlotIn(SlotIn { slot: 0 }), AT);
    graph.connect(input, 0, write, 0);
    graph.connect(read, 0, output, 0);
    graph.connect(time, 0, read, 0);

    let program = compile(&graph, SLOTS).unwrap();
    let lane = program
        .audio_ops
        .iter()
        .find_map(|op| match op {
            AudioOp::DelayRead { lane, .. } => *lane,
            _ => None,
        })
        .expect("the wired time control got a lane") as usize;
    let lanes_per_row = lane + 1;

    let mut engine = Rig::new();
    engine.prepare(128, &[2]);
    load(&mut engine, &graph);

    let mut heard = Vec::new();
    let mut clock = 0.0f32;
    // Four blocks of ramp at a fixed 300 samples back to fill the line,
    // then four with the time sweeping from 300 to 268.
    for block in 0..8 {
        let mut daw_in = vec![0.0f32; 2 * 128];
        for i in 0..128 {
            daw_in[i] = clock;
            daw_in[128 + i] = clock;
            clock += 1.0;
        }
        let mut lanes = vec![0.0f64; lanes_per_row * 4];
        for row in 0..4 {
            let swept = (block - 4).max(0) as f64 * 4.0 + row as f64;
            lanes[row * lanes_per_row + lane] = seconds(300.0 - swept * 8.0);
        }
        let mut daw_out = vec![0.0f32; 2 * 128];
        engine.run_audio(
            &AudioContext {
                frames: 128,
                quantum: 32,
                sample_rate: RATE,
                lanes: &lanes,
                lanes_per_row,
            },
            &daw_in,
            &mut daw_out,
            &mut Adders,
        );
        if block >= 4 {
            heard.extend_from_slice(&daw_out[..128]);
        }
    }

    // The first sub-block of the sweep is still coming up to speed: it
    // ramps from where the held pointer was, so it is the one chunk whose
    // step is 1. Everything after it is at the sweep's own rate.
    let steps: Vec<f32> = heard[32..].windows(2).map(|w| w[1] - w[0]).collect();
    // Eight samples of sweep every 32 of output: a quarter faster. Every
    // step, not just the average - one step out of line is what a click is.
    let worst = steps
        .iter()
        .map(|s| (s - 1.25).abs())
        .fold(0.0f32, f32::max);
    assert!(worst < 0.02, "largest departure from 1.25 was {worst}");
}

/// A mix of one input is a gain, which is the whole reason the gains live
/// on `Mix` rather than on a node of their own.
#[test]
fn engine_a_mix_of_one_is_a_gain() {
    let mut graph = Graph::new();
    let input = stereo_in(&mut graph);
    let output = stereo_out(&mut graph);
    let gain = graph.add(
        NodeKind::Mix(Mix {
            channels: 2,
            inputs: 1,
            gains: reals(&[linear_to_db(0.25)]),
        }),
        AT,
    );
    graph.connect(input, 0, gain, 0);
    graph.connect(gain, 0, output, 0);

    let mut engine = Rig::new();
    engine.prepare(64, &[2]);
    load(&mut engine, &graph);

    let daw_in: Vec<f32> = (0..2 * 8).map(|i| i as f32).collect();
    let mut daw_out = vec![0.0f32; 2 * 8];
    engine.run_audio(&audio_ctx(8), &daw_in, &mut daw_out, &mut Adders);
    let want: Vec<f32> = daw_in.iter().map(|v| v * 0.25).collect();
    assert_eq!(daw_out, want);
}

/// Each input has its own gain, and the sum is of the scaled ones. This is
/// what turns a feedback loop's gain down below unity so it decays.
#[test]
fn engine_each_mix_input_is_scaled_before_the_sum() {
    let mut graph = Graph::new();
    let a = stereo_in(&mut graph);
    let output = stereo_out(&mut graph);
    let mix = graph.add(
        NodeKind::Mix(Mix {
            channels: 2,
            inputs: 2,
            gains: reals(&[linear_to_db(0.5), linear_to_db(0.25)]),
        }),
        AT,
    );
    // The same source into both inputs: 0.5 + 0.25 of it should come out.
    graph.connect(a, 0, mix, 0);
    graph.connect(a, 0, mix, 2);
    graph.connect(mix, 0, output, 0);

    let mut engine = Rig::new();
    engine.prepare(64, &[2]);
    load(&mut engine, &graph);

    let daw_in = vec![4.0f32; 2 * 8];
    let mut daw_out = vec![0.0f32; 2 * 8];
    engine.run_audio(&audio_ctx(8), &daw_in, &mut daw_out, &mut Adders);
    assert!(
        daw_out.iter().all(|&v| (v - 3.0).abs() < 1e-6),
        "{daw_out:?}"
    );
}

/// A gate is a `Mix` of one whose gain the parameter half switches, and
/// this is the whole round trip: the control lands in a lane, the lane
/// becomes a gain, the gain is unity or silence.
#[test]
fn engine_a_gate_passes_or_silences_by_its_control() {
    let mut graph = Graph::new();
    let input = stereo_in(&mut graph);
    let output = stereo_out(&mut graph);
    let control = graph.add(NodeKind::SlotIn(SlotIn { slot: 0 }), AT);
    let gate = graph.add(
        NodeKind::Gate(Gate {
            channels: 2,
            threshold: real_of(0.5),
            invert: false,
            fade_in_ms: real_of(0.0),
            fade_out_ms: real_of(0.0),
        }),
        AT,
    );
    graph.connect(input, 0, gate, 0);
    graph.connect(control, 0, gate, 1);
    graph.connect(gate, 0, output, 0);

    let mut engine = Rig::new();
    engine.prepare(8, &[2]);
    load(&mut engine, &graph);

    let width = WIDTH;
    let mut render = |control: f64| -> Vec<f32> {
        let mut lanes = vec![0.0; width];
        lanes[0] = control;
        engine.run(&ctx(8), &mut lanes);
        let daw_in = vec![1.0f32; 2 * 8];
        let mut daw_out = vec![0.0f32; 2 * 8];
        engine.run_audio(
            &AudioContext {
                frames: 8,
                quantum: 32,
                sample_rate: RATE,
                lanes: &lanes,
                lanes_per_row: width,
            },
            &daw_in,
            &mut daw_out,
            &mut Adders,
        );
        daw_out
    };

    assert!(
        render(1.0).iter().all(|&v| (v - 1.0).abs() < 1e-6),
        "an open gate is unity gain"
    );
    assert!(
        render(0.0).iter().all(|&v| v.abs() < 1e-6),
        "a shut gate is silence"
    );
}

/// When a gain socket is driven by a parameter source, the parameter value
/// is interpreted as decibels and converted to a linear multiplier for audio.
#[test]
fn engine_a_driven_gain_socket_interprets_its_value_as_decibels() {
    let mut graph = Graph::new();
    let input = stereo_in(&mut graph);
    let output = stereo_out(&mut graph);
    let gain_ctl = graph.add(NodeKind::SlotIn(SlotIn { slot: 0 }), AT);
    let mix = graph.add(
        NodeKind::Mix(Mix {
            channels: 2,
            inputs: 1,
            gains: reals(&[0.0]),
        }),
        AT,
    );
    graph.connect(input, 0, mix, 0);
    // Sockets alternate: input 1 is socket 0, gain 1 is socket 1.
    graph.connect(gain_ctl, 0, mix, 1);
    graph.connect(mix, 0, output, 0);

    let program = compile(&graph, SLOTS).unwrap();
    let lane = program
        .audio_ops
        .iter()
        .find_map(|op| match op {
            AudioOp::Mix { inputs, .. } => inputs[0].lane,
            _ => None,
        })
        .expect("the wired gain control got a lane") as usize;
    let lanes_per_row = lane + 1;
    let lanes = vec![-6.0; lanes_per_row];

    let mut engine = Rig::new();
    engine.prepare(8, &[2]);
    load(&mut engine, &graph);

    let daw_in = vec![1.0f32; 2 * 8];
    let mut daw_out = vec![0.0f32; 2 * 8];
    engine.run_audio(
        &AudioContext {
            frames: 8,
            quantum: 8,
            sample_rate: RATE,
            lanes: &lanes,
            lanes_per_row,
        },
        &daw_in,
        &mut daw_out,
        &mut Adders,
    );

    let want_linear = db_to_linear(-6.0) as f32;
    assert!(
        daw_out.iter().all(|&v| (v - want_linear).abs() < 1e-6),
        "expected {want_linear}, got {daw_out:?}"
    );
}

/// Verifies that resizing max delay time allocates a larger ring buffer while preserving existing samples.
#[test]
fn engine_a_longer_max_time_gets_a_longer_ring_and_keeps_what_was_in_it() {
    let mut graph = Graph::new();
    let input = stereo_in(&mut graph);
    let output = stereo_out(&mut graph);
    let (write, read) = audio_delay(&mut graph, 200.0);
    graph.connect(input, 0, write, 0);
    graph.connect(read, 0, output, 0);

    let mut program = compile(&graph, SLOTS).unwrap();
    let lens = ring_lens(&program, RATE);
    let sized = program.size_rings(&lens, &[]);
    // 0.05 s at 48 kHz, plus the interpolator's headroom.
    assert_eq!(program.audio_ring_len, vec![2404]);
    assert_eq!(program.audio_rings[0].len(), MAX_CHANNELS * 2404);

    // Publishing again with nothing changed hands over no ring at all.
    let mut again = compile(&graph, SLOTS).unwrap();
    let lens = ring_lens(&again, RATE);
    let sized_again = again.size_rings(&lens, &sized);
    assert!(
        again.audio_rings[0].is_empty(),
        "an unchanged line is left alone"
    );
    assert_eq!(sized_again, sized);

    let mut engine = Rig::new();
    engine.prepare(128, &[2]);
    adopt(&mut engine, program);

    let daw_in = impulse(128, 8);
    let mut daw_out = vec![0.0f32; 2 * 128];
    engine.run_audio(&audio_ctx(128), &daw_in, &mut daw_out, &mut Adders);

    // Now ask for four times the range. The ring has to be reallocated on
    // the main thread, and the impulse still in it has to survive.
    if let Some(NodeKind::DelayRead(DelayRead { max_time, .. })) =
        graph.node_mut(read).map(|n| &mut n.kind)
    {
        *max_time = real_of(0.2);
    }
    let mut wider = compile(&graph, SLOTS).unwrap();
    let lens = ring_lens(&wider, RATE);
    wider.size_rings(&lens, &sized);
    assert_eq!(wider.audio_ring_len, vec![9604]);
    assert!(
        !wider.audio_rings[0].is_empty(),
        "a changed line gets a new ring"
    );
    adopt(&mut engine, wider);

    let mut daw_out = vec![0.0f32; 2 * 128];
    engine.run_audio(
        &audio_ctx(128),
        &vec![0.0; 2 * 128],
        &mut daw_out,
        &mut Adders,
    );
    assert_eq!(
        daw_out[..128]
            .iter()
            .position(|v| v.abs() > 0.9)
            .expect("the impulse came through the reallocation"),
        8 + 200 - 128
    );
}

/// Verifies that recompiling a patch preserves audio delay buffer contents.
#[test]
fn engine_a_recompile_leaves_the_line_full() {
    let mut graph = Graph::new();
    let input = stereo_in(&mut graph);
    let output = stereo_out(&mut graph);
    // Longer than a block, so the impulse is still inside the line when
    // the swap happens.
    let (write, read) = audio_delay(&mut graph, 200.0);
    graph.connect(input, 0, write, 0);
    graph.connect(read, 0, output, 0);

    let mut engine = Rig::new();
    engine.prepare(128, &[2]);
    load(&mut engine, &graph);

    let daw_in = impulse(128, 8);
    let mut daw_out = vec![0.0f32; 2 * 128];
    engine.run_audio(&audio_ctx(128), &daw_in, &mut daw_out, &mut Adders);

    // An edit somewhere else entirely, between the write and the read.
    let constant = graph.add(NodeKind::Constant(Constant { value: real_of(0.5) }), AT);
    let slot = param_sink(&mut graph);
    graph.connect(constant, 0, slot, 0);
    load(&mut engine, &graph);

    let mut daw_out = vec![0.0f32; 2 * 128];
    engine.run_audio(
        &audio_ctx(128),
        &vec![0.0; 2 * 128],
        &mut daw_out,
        &mut Adders,
    );
    let peak = daw_out[..128]
        .iter()
        .fold(0.0f32, |best, v| best.max(v.abs()));
    assert!(peak > 0.9, "the impulse survived the swap, peak {peak}");
    assert_eq!(
        daw_out[..128]
            .iter()
            .position(|v| v.abs() > 0.9)
            .expect("and at the right moment"),
        8 + 200 - 128
    );
}
