use audio_graph_engine::block::{BlockRun, Work};
use audio_graph_engine::compile::compile;
use audio_graph_engine::engine::{Engine, PreparedProgram};
use audio_graph_engine::event::{Event, NoteEvent};
use audio_graph_engine::graph::{Graph, Link};
use audio_graph_engine::error::CompileError;
use audio_graph_engine::ir::{
    AudioOp, Chunking, Detect, Folding, NodeId, NoteOp, Op, Program, Rate, Waveform, MAX_AUDIO_LANES,
    MAX_GRAPH_PARAMS,
};
use audio_graph_engine::nodes::{
    AudioIn, AudioOut, DelayRead, DelayWrite, KeyParam, KeyParamMode, KeySwitch, KeySwitchMode,
    Mix, NodeKind, NoteGate, NoteMute, Plugin, PluginPorts, SlotIn,
};
use audio_graph_engine::number::{Real, Sample};
use audio_graph_engine::params::{follow_time, Answer, Arithmetic, ParamWork};
use audio_graph_engine::port::PortType;
use audio_graph_engine::run::{
    fade_from, fade_piece, fade_time, lane_at, read_distance, AudioAnswer, AudioWork, ChunkPlace,
    PluginCall,
};
use audio_graph_engine::schedule::SlotSchedule;
use audio_graph_engine::sound::Window;

/// The rate the audio tests run at. Real rather than convenient, because
/// the delay rings are sized in seconds and a fake rate would make a
/// sensible `max_time` come out as four samples.
const RATE: f64 = 48_000.0;

const SLOTS: usize = 32;

/// Where a node is drawn, which no test here looks at.
const AT: [Sample; 2] = [Sample { bits: 0 }; 2];

fn real_of(value: f64) -> Real {
    Real {
        bits: value.to_bits(),
    }
}

fn reals(values: &[f64]) -> Vec<Real> {
    values.iter().map(|&value| real_of(value)).collect()
}

fn number(value: Real) -> f64 {
    f64::from_bits(value.bits)
}

fn numbers(values: &[Real]) -> Vec<f64> {
    values.iter().map(|&value| number(value)).collect()
}

fn sample(value: f32) -> Sample {
    Sample {
        bits: value.to_bits(),
    }
}

fn samples(values: &[f32]) -> Vec<Sample> {
    values.iter().map(|&value| sample(value)).collect()
}

fn level(value: Sample) -> f32 {
    f32::from_bits(value.bits)
}

/// At and below -120 dB there is nothing left to hear.
fn db_to_linear(db: f64) -> f64 {
    if db <= -120.0 {
        0.0
    } else {
        10f64.powf(db / 20.0)
    }
}

#[allow(dead_code)]
fn linear_to_db(linear: f64) -> f64 {
    if linear <= 0.0 {
        -120.0
    } else {
        20.0 * linear.log10()
    }
}

/// A sub-block of the parameter half.
#[derive(Clone, Copy)]
struct BlockContext {
    sample_rate: f64,
    tempo_bpm: f64,
    frames: u32,
    offset: u32,
    row: u32,
    block: u32,
}

/// A block of the audio half, and the lanes it reads.
#[derive(Clone, Copy)]
struct AudioContext<'a> {
    frames: u32,
    quantum: u32,
    sample_rate: f64,
    lanes: &'a [f64],
    lanes_per_row: usize,
}

/// How a plugin's region is packed for one call.
#[derive(Clone, Copy)]
struct AudioChunk {
    input_channels: u16,
    output_channels: u16,
    frames: u32,
}

impl AudioChunk {
    fn channel(&self, channel: u16) -> std::ops::Range<usize> {
        let frames = self.frames as usize;
        channel as usize * frames..(channel as usize + 1) * frames
    }
}

/// The plugins a program calls.
trait AudioInstances {
    fn reports_note_end(&self, _instance: u32, _port: i16) -> bool {
        true
    }

    fn process(
        &mut self,
        instance: u32,
        notes: &[Event],
        input: &[f32],
        output: &mut [f32],
        chunk: AudioChunk,
    );
}

/// No plugins at all.
struct NoInstances;

impl AudioInstances for NoInstances {
    fn process(&mut self, _: u32, _: &[Event], _: &[f32], output: &mut [f32], _: AudioChunk) {
        output.fill(0.0);
    }
}

/// The engine with its arithmetic done in floating point.
struct Rig {
    core: Engine,
}

impl std::ops::Deref for Rig {
    type Target = Engine;

    fn deref(&self) -> &Engine {
        &self.core
    }
}

impl std::ops::DerefMut for Rig {
    fn deref_mut(&mut self) -> &mut Engine {
        &mut self.core
    }
}

/// The rows of a block, laid out from a flat run of lanes.
fn schedule_of(frames: u32, quantum: u32, lanes: &[f64], width: usize) -> SlotSchedule {
    let mut schedule = SlotSchedule::new(width, frames, quantum).unwrap();
    schedule.begin(frames, quantum, &[]).unwrap();
    for (row, values) in schedule.rows.iter_mut().enumerate() {
        for (lane, value) in values.iter_mut().enumerate() {
            *value = real_of(lanes.get(row * width + lane).copied().unwrap_or(0.0));
        }
    }
    schedule
}

impl Rig {
    fn new() -> Rig {
        Rig {
            core: Engine::new(),
        }
    }

    fn run(&mut self, ctx: &BlockContext, slots: &mut [f64]) {
        let run = self.core.run(ctx.row as usize);
        self.run_row(run, ctx, slots);
    }

    #[allow(dead_code)]
    fn run_stage(&mut self, stage: usize, ctx: &BlockContext, slots: &mut [f64]) {
        let run = self.core.run_stage(stage, ctx.row as usize);
        self.run_row(run, ctx, slots);
    }

    fn run_row(&mut self, run: BlockRun, ctx: &BlockContext, slots: &mut [f64]) {
        let quantum = if ctx.row == 0 {
            ctx.frames
        } else {
            ctx.offset / ctx.row
        };
        let mut schedule = schedule_of(ctx.block, quantum, &[], slots.len());
        let row = ctx.row as usize;
        assert_eq!(schedule.offset(row), ctx.offset);
        assert_eq!(schedule.frames_of(row), ctx.frames);
        schedule.rows[row] = reals(slots);
        self.drive(
            run,
            &mut schedule,
            (ctx.sample_rate, ctx.tempo_bpm),
            &[],
            &mut [],
            &mut NoInstances,
        );
        slots.copy_from_slice(&numbers(&schedule.rows[row]));
    }

    fn run_audio(
        &mut self,
        ctx: &AudioContext,
        daw_in: &[f32],
        daw_out: &mut [f32],
        nodes: &mut dyn AudioInstances,
    ) {
        let mut heard = samples(daw_out);
        let run = self.core.run_audio(&mut heard);
        self.run_half(run, ctx, daw_in, &mut heard, nodes);
        for (to, from) in daw_out.iter_mut().zip(heard) {
            *to = level(from);
        }
    }

    #[allow(dead_code)]
    fn run_audio_stage(
        &mut self,
        stage: usize,
        ctx: &AudioContext,
        daw_in: &[f32],
        daw_out: &mut [f32],
        nodes: &mut dyn AudioInstances,
    ) {
        let mut heard = samples(daw_out);
        let run = self.core.run_audio_stage(stage);
        self.run_half(run, ctx, daw_in, &mut heard, nodes);
        for (to, from) in daw_out.iter_mut().zip(heard) {
            *to = level(from);
        }
    }

    fn run_half(
        &mut self,
        run: BlockRun,
        ctx: &AudioContext,
        daw_in: &[f32],
        heard: &mut [Sample],
        nodes: &mut dyn AudioInstances,
    ) {
        let mut schedule = schedule_of(ctx.frames, ctx.quantum, ctx.lanes, ctx.lanes_per_row);
        self.drive(
            run,
            &mut schedule,
            (ctx.sample_rate, 120.0),
            &samples(daw_in),
            heard,
            nodes,
        );
    }

    #[allow(dead_code, clippy::too_many_arguments)]
    fn run_block(
        &mut self,
        schedule: &mut SlotSchedule,
        slots: &[f64],
        events: &[Event],
        frames: u32,
        quantum: u32,
        sample_rate: f64,
        tempo_bpm: f64,
        daw_in: &[f32],
        daw_out: &mut [f32],
        nodes: &mut dyn AudioInstances,
    ) -> bool {
        let mut heard = samples(daw_out);
        let run = self
            .core
            .run_block(schedule, &reals(slots), events, frames, quantum, &mut heard);
        if let Some(run) = run {
            let clock = (sample_rate, tempo_bpm);
            self.drive(run, schedule, clock, &samples(daw_in), &mut heard, nodes);
        }
        for (to, from) in daw_out.iter_mut().zip(heard) {
            *to = level(from);
        }
        run.is_some()
    }

    /// Runs to the end, working out each thing the engine asks for.
    fn drive(
        &mut self,
        mut run: BlockRun,
        schedule: &mut SlotSchedule,
        (rate, tempo): (f64, f64),
        daw_in: &[Sample],
        heard: &mut [Sample],
        nodes: &mut dyn AudioInstances,
    ) {
        loop {
            match self.core.step(&mut run, schedule, daw_in, heard) {
                Work::Over => break,
                Work::Stage => {}
                Work::Param { work, row } => {
                    if work != ParamWork::Nothing {
                        let win = Window {
                            block: schedule.frames as usize,
                            start: schedule.offset(row) as usize,
                            frames: schedule.frames_of(row) as usize,
                        };
                        let answer = self.answer(&work, &win, rate, tempo);
                        self.core.settle(&work, &answer);
                    }
                }
                Work::Audio { work, place } => {
                    let answer = self.sound_of(&work, &place, schedule, rate, nodes);
                    self.core.settle_audio(&work, &place.win, &answer);
                }
            }
        }
    }

    fn answer(&self, work: &ParamWork, win: &Window, rate: f64, tempo: f64) -> Answer {
        let dt = win.frames as f64 / rate;
        match *work {
            ParamWork::Nothing => unreachable!(),
            ParamWork::Math { a, b, by, .. } => {
                let (a, b) = (number(a), number(b));
                Answer::Value(real_of(match by {
                    Arithmetic::Sum => a + b,
                    Arithmetic::Difference => a - b,
                    Arithmetic::Product => a * b,
                    Arithmetic::Power => a.powf(b),
                }))
            }
            ParamWork::Range {
                value,
                in_lo,
                in_hi,
                out_lo,
                out_hi,
                clamp,
                ..
            } => {
                let span = number(in_hi) - number(in_lo);
                let t = if span == 0.0 {
                    0.0
                } else {
                    (number(value) - number(in_lo)) / span
                };
                let t = if clamp { t.clamp(0.0, 1.0) } else { t };
                Answer::Value(real_of(
                    number(out_lo) + t * (number(out_hi) - number(out_lo)),
                ))
            }
            ParamWork::Lfo {
                waveform,
                rate: speed,
                offset_phase,
                depth,
                centre,
                phase,
                hold,
                draw,
                ..
            } => {
                let at = (number(phase) + number(offset_phase)).rem_euclid(1.0);
                let shape = match waveform {
                    Waveform::Sine => (at * std::f64::consts::TAU).sin(),
                    Waveform::Triangle => 1.0 - 4.0 * (at - 0.5).abs(),
                    Waveform::Saw => 2.0 * at - 1.0,
                    Waveform::Square => {
                        if at < 0.5 {
                            -1.0
                        } else {
                            1.0
                        }
                    }
                    Waveform::Random => number(hold),
                };
                let hz = match speed {
                    Rate::Hz(hz) => number(hz),
                    Rate::Beats(beats) => 1.0 / number(beats) * tempo / 60.0,
                };
                let advanced = number(phase) + hz * dt;
                Answer::Wave {
                    value: real_of(number(centre) + number(depth) * shape),
                    phase: real_of(advanced.rem_euclid(1.0)),
                    hold: if advanced >= 1.0 {
                        Some(real_of(f64::from(draw >> 8) / f64::from(1u32 << 23) - 1.0))
                    } else {
                        None
                    },
                }
            }
            ParamWork::Taps { time, .. } => {
                let per_second = rate / win.frames as f64;
                let taps = (number(time) * per_second).round();
                Answer::Taps(if taps.is_nan() {
                    None
                } else {
                    Some(taps as usize)
                })
            }
            ParamWork::Level {
                buf,
                detect,
                held,
                attack,
                release,
                ..
            } => {
                let width = self.core.level_channels(buf);
                let loud = self.loudness(buf, width, detect, win);
                let time = follow_time(real_of(loud), held, attack, release);
                let (time, held) = (number(time), number(held));
                Answer::Value(real_of(if time > 0.0 && dt > 0.0 {
                    held + (loud - held) * (1.0 - (-dt / time).exp())
                } else {
                    loud
                }))
            }
            ParamWork::Track { key, .. } => Answer::Value(real_of(f64::from(key) / 127.0)),
            ParamWork::Step { at, count, .. } => {
                Answer::Value(real_of((number(at) + 1.0).rem_euclid(f64::from(count))))
            }
        }
    }

    fn loudness(&self, buf: u16, width: u16, detect: Detect, win: &Window) -> f64 {
        if width == 0 || win.frames == 0 {
            return 0.0;
        }
        let mut peak = 0.0f32;
        let mut sum = 0.0f64;
        for ch in 0..width as usize {
            for &value in self.core.sound.channel(buf, ch, win) {
                peak = peak.max(level(value).abs());
                sum += f64::from(level(value)) * f64::from(level(value));
            }
        }
        match detect {
            Detect::Peak => f64::from(peak),
            Detect::Rms => (sum / (width as usize * win.frames) as f64).sqrt(),
        }
    }

    fn heard_in(&self, buf: u16, channel: usize, win: &Window) -> Vec<f32> {
        let channel = self.core.sound.channel(buf, channel, win);
        channel.iter().map(|&value| level(value)).collect()
    }

    fn sound_of(
        &mut self,
        work: &AudioWork,
        place: &ChunkPlace,
        schedule: &SlotSchedule,
        rate: f64,
        nodes: &mut dyn AudioInstances,
    ) -> AudioAnswer {
        let win = &place.win;
        let mut value = 0.0;
        let channels = match work {
            AudioWork::Nothing => Vec::new(),
            AudioWork::Fold { list, folding } => {
                let mut channels = Vec::new();
                for fold in list {
                    let mut sum = self.heard_in(fold.from, 0, win);
                    for ch in 1..fold.width as usize {
                        for (to, from) in sum.iter_mut().zip(self.heard_in(fold.from, ch, win)) {
                            *to += from;
                        }
                    }
                    if *folding == Folding::Average {
                        let scale = 1.0 / fold.width as f32;
                        sum.iter_mut().for_each(|value| *value *= scale);
                    }
                    channels.push(sum);
                }
                channels
            }
            AudioWork::Plugin { call } => vec![self.called(call, place, schedule, nodes)],
            AudioWork::Mix { width, parts, .. } => {
                let mut channels = Vec::new();
                for ch in 0..*width as usize {
                    let mut sum = vec![0.0f32; win.frames];
                    for part in parts {
                        let gain = db_to_linear(number(part.gain)) as f32;
                        for (to, from) in sum.iter_mut().zip(self.heard_in(part.buf, ch, win)) {
                            *to += from * gain;
                        }
                    }
                    channels.push(sum);
                }
                channels
            }
            AudioWork::Fade {
                a,
                width,
                lane,
                from,
                gain,
                rise,
                fall,
                ..
            } => {
                let mut channels: Vec<Vec<f32>> = (0..*width as usize)
                    .map(|ch| self.heard_in(*a, ch, win))
                    .collect();
                let mut from = number(*from);
                let mut target = number(*gain);
                let mut done = 0;
                while done < win.frames {
                    let (len, row) = fade_piece(win.start, done, win.frames, schedule.quantum());
                    if let Some(db) = lane_at(&schedule.rows, row, *lane) {
                        target = db_to_linear(number(db));
                    }
                    from = number(fade_from(real_of(from), real_of(target)));
                    let ms = fade_time(real_of(from), real_of(target), *rise, *fall);
                    let seconds = number(ms) / 1000.0;
                    let step = if seconds > 0.0 {
                        1.0 / (seconds * rate)
                    } else {
                        f64::INFINITY
                    };
                    let delta = target - from;
                    let ramp = if step.is_finite() {
                        ((delta.abs() / step).ceil() as usize).min(len)
                    } else {
                        0
                    };
                    let ramped = |i: usize| {
                        let moved = from + delta.signum() * step * (i + 1) as f64;
                        if delta > 0.0 {
                            moved.min(target)
                        } else {
                            moved.max(target)
                        }
                    };
                    for channel in channels.iter_mut() {
                        for i in 0..len {
                            let gain = if i < ramp { ramped(i) } else { target };
                            channel[done + i] *= gain as f32;
                        }
                    }
                    from = if ramp < len { target } else { ramped(ramp - 1) };
                    done += len;
                }
                value = from;
                channels
            }
            AudioWork::Read {
                line,
                width,
                tap,
                seconds,
                max_time,
                shortest,
                longest,
                ..
            } => {
                let distance = read_distance(
                    real_of(number(*seconds) * rate),
                    real_of(number(*max_time) * rate),
                    real_of(*shortest as f64),
                    real_of(*longest as f64),
                );
                let from = number(self.core.sound.sweep_start(*tap, distance));
                value = number(distance);
                (0..*width as usize)
                    .map(|ch| {
                        (0..win.frames)
                            .map(|i| {
                                let t = (i + 1) as f64 / win.frames as f64;
                                let position = i as f64 - (from + (value - from) * t);
                                let whole = position.floor();
                                let y = |offset: i64| {
                                    let at = whole as i64 + offset;
                                    let ahead = at.max(0) as usize;
                                    let back = (-at).max(0) as usize;
                                    level(self.core.sound.tap(*line, ch, ahead, back))
                                };
                                hermite(y(-1), y(0), y(1), y(2), (position - whole) as f32)
                            })
                            .collect()
                    })
                    .collect()
            }
        };
        AudioAnswer {
            channels: channels.iter().map(|channel| samples(channel)).collect(),
            value: real_of(value),
        }
    }

    fn called(
        &mut self,
        call: &PluginCall,
        place: &ChunkPlace,
        schedule: &SlotSchedule,
        nodes: &mut dyn AudioInstances,
    ) -> Vec<f32> {
        let frames = place.win.frames;
        let quantum = schedule.quantum();
        let events = self.core.events_for(call.notes, place, quantum);
        for event in &events {
            let port = match event {
                Event::Note(NoteEvent::NoteOn { port, .. }) => *port,
                Event::Note(NoteEvent::NoteOff { port, .. }) => *port,
                _ => 0,
            };
            let reports = nodes.reports_note_end(call.instance as u32, port);
            self.core.note_handed(event, call.instance, reports);
        }
        let mut packed = Vec::new();
        self.core
            .sound
            .pack(call.input, call.input_width, &place.win, &mut packed);
        let input: Vec<f32> = packed.iter().map(|&value| level(value)).collect();
        let mut output = vec![0.0; call.output_width as usize * frames];
        nodes.process(
            call.instance as u32,
            &events,
            &input,
            &mut output,
            AudioChunk {
                input_channels: call.input_width,
                output_channels: call.output_width,
                frames: frames as u32,
            },
        );
        output
    }
}

fn hermite(y0: f32, y1: f32, y2: f32, y3: f32, x: f32) -> f32 {
    let c1 = 0.5 * (y2 - y0);
    let c2 = y0 - 2.5 * y1 + 2.0 * y2 - 0.5 * y3;
    let c3 = 0.5 * (y3 - y0) + 1.5 * (y1 - y2);
    ((c3 * x + c2) * x + c1) * x + y1
}

/// How many samples a channel of each of a program's delay lines holds, with
/// room for the interpolator.
fn ring_lens(program: &Program, rate: f64) -> Vec<usize> {
    let seconds = program.audio_ring_seconds.iter();
    seconds
        .map(|&seconds| (number(seconds) * rate).ceil() as usize + 4)
        .collect()
}

/// Compiles a graph, sizes its rings and hands it to the engine.
fn load(engine: &mut Rig, graph: &Graph) {
    let mut program = compile(graph, SLOTS).unwrap();
    let lens = ring_lens(&program, RATE);
    program.size_rings(&lens, &[]);
    engine.adopt(PreparedProgram {
        program,
        publication: 0,
    });
}

/// Whether any part of a program has to run a sub-block at a time.
fn chunking(program: &Program) -> Chunking {
    if program
        .stages
        .iter()
        .any(|stage| stage.chunking == Chunking::SubBlock)
    {
        Chunking::SubBlock
    } else {
        Chunking::WholeBlock
    }
}

fn note_on(key: i16) -> Event {
    Event::Note(NoteEvent::NoteOn {
        note_id: None,
        port: 0,
        channel: 0,
        key,
        velocity: real_of(1.0),
        sample_offset: 0,
    })
}

fn note_off(key: i16) -> Event {
    Event::Note(NoteEvent::NoteOff {
        note_id: None,
        port: 0,
        channel: 0,
        key,
        velocity: real_of(0.0),
        sample_offset: 1,
    })
}

/// Keeps every event it is handed.
struct Listener(Vec<Event>);

impl AudioInstances for Listener {
    fn process(&mut self, _: u32, notes: &[Event], _: &[f32], output: &mut [f32], _: AudioChunk) {
        self.0.extend_from_slice(notes);
        output.fill(0.0);
    }
}

/// What the instrument hears of one block, with slot 0 at a value.
fn hear(graph: &Graph, events: &[Event], control: f64) -> Vec<Event> {
    let mut engine = Rig::new();
    engine.prepare(8, &[2]);
    load(&mut engine, graph);
    let width = SLOTS + MAX_GRAPH_PARAMS + MAX_AUDIO_LANES;
    let mut schedule = SlotSchedule::new(width, 8, 8).unwrap();
    let mut listener = Listener(Vec::new());
    let mut daw_out = [0.0; 16];
    assert!(engine.run_block(
        &mut schedule,
        &[control],
        events,
        8,
        8,
        RATE,
        120.0,
        &[0.0; 16],
        &mut daw_out,
        &mut listener,
    ));
    listener.0
}

/// A context for a test that only cares about the frame count: no
/// automation, and a quantum big enough that a whole-block program stays
/// one chunk.
fn ctx(frames: u32) -> AudioContext<'static> {
    AudioContext {
        frames,
        quantum: 32,
        sample_rate: 48_000.0,
        lanes: &[],
        lanes_per_row: 0,
    }
}
fn plugin(graph: &mut Graph, instance: usize, latency: u32) -> NodeId {
    graph.add(
        NodeKind::Plugin(Plugin {
            instance,
            ports: PluginPorts {
                audio_in: vec![2],
                audio_out: vec![2],
                audio_out_shown: Vec::new(),
                latency,
                ..PluginPorts::default()
            },
        }),
        AT,
    )
}

/// A plugin with a main stereo bus and one aux bus of `aux` channels.
fn with_sidechain(graph: &mut Graph, instance: usize, aux: u16) -> NodeId {
    graph.add(
        NodeKind::Plugin(Plugin {
            instance,
            ports: PluginPorts {
                audio_in: vec![2, aux],
                audio_out: vec![2],
                audio_out_shown: Vec::new(),
                ..PluginPorts::default()
            },
        }),
        AT,
    )
}

fn stereo_in(graph: &mut Graph) -> NodeId {
    graph.add(
        NodeKind::AudioIn(AudioIn {
            bus: 0,
            channels: 2,
        }),
        AT,
    )
}

fn stereo_out(graph: &mut Graph) -> NodeId {
    graph.add(
        NodeKind::AudioOut(AudioOut {
            bus: 0,
            channels: 2,
        }),
        AT,
    )
}

#[test]
fn two_plugins_in_series_run_in_order() {
    let mut graph = Graph::new();
    let input = stereo_in(&mut graph);
    let first = plugin(&mut graph, 0, 0);
    let second = plugin(&mut graph, 1, 0);
    let output = stereo_out(&mut graph);
    graph.connect(input, 0, first, 0);
    graph.connect(first, 0, second, 0);
    graph.connect(second, 0, output, 0);

    let program = compile(&graph, SLOTS).unwrap();
    let order: Vec<usize> = program
        .audio_ops
        .iter()
        .filter_map(|op| match op {
            AudioOp::Plugin { instance, .. } => Some(*instance),
            _ => None,
        })
        .collect();
    assert_eq!(order, vec![0, 1]);
}

/// Nothing reads the first plugin's output once the second has run, so the
/// third one may have it back.
#[test]
fn a_buffer_comes_back_once_nothing_reads_it() {
    let mut graph = Graph::new();
    let input = stereo_in(&mut graph);
    let output = stereo_out(&mut graph);
    let mut last = input;
    for i in 0..6 {
        let node = plugin(&mut graph, i, 0);
        graph.connect(last, 0, node, 0);
        last = node;
    }
    graph.connect(last, 0, output, 0);

    let program = compile(&graph, SLOTS).unwrap();
    assert!(
        program.buffers.len() <= 3,
        "a chain of six wants two or three buffers, not {}: {:?}",
        program.buffers.len(),
        program.buffers
    );
}

/// A plugin must never be handed the same buffer to read and to write.
#[test]
fn a_plugin_never_reads_and_writes_one_buffer() {
    let mut graph = Graph::new();
    let input = stereo_in(&mut graph);
    let output = stereo_out(&mut graph);
    let mut last = input;
    for i in 0..4 {
        let node = plugin(&mut graph, i, 0);
        graph.connect(last, 0, node, 0);
        last = node;
    }
    graph.connect(last, 0, output, 0);

    let program = compile(&graph, SLOTS).unwrap();
    for op in &program.audio_ops {
        if let AudioOp::Plugin { input, output, .. } = op {
            assert_ne!(input, output, "{op:?}");
        }
    }
}

/// A plugin's second output bus is its own signal, not a second name for
/// the first.
///
/// Real instruments make this concrete: one declares `Output`, `Scene A` and
/// `Scene B`, and
/// each socket has to render its own. What the program has to show is a plugin handed one packed
/// output region and a `Split` per bus somebody reads.
#[test]
fn each_output_bus_is_split_out_of_the_plugins_output_region() {
    let mut graph = Graph::new();
    let input = stereo_in(&mut graph);
    let output = stereo_out(&mut graph);
    let node = graph.add(
        NodeKind::Plugin(Plugin {
            instance: 0,
            ports: PluginPorts {
                audio_in: vec![2],
                // Three buses, as a multi-scene instrument has.
                audio_out: vec![2, 2, 2],
                audio_out_shown: Vec::new(),
                ..PluginPorts::default()
            },
        }),
        AT,
    );
    graph.connect(input, 0, node, 0);
    graph.connect(node, 1, output, 0);

    let program = compile(&graph, SLOTS).expect("the second bus is routable");

    // Two buses are handed over, not three: nothing reads the third, so
    // the plugin is never asked to produce it.
    let buses = program.audio_ops.iter().find_map(|op| match op {
        AudioOp::Plugin { output_buses, .. } => Some(output_buses.clone()),
        _ => None,
    });
    assert_eq!(buses, Some(vec![2, 2]));
    assert_eq!(
        program.instances[0].output_channels, 2,
        "the main bus stays the main bus"
    );
    assert_eq!(program.instances[0].aux_outputs, vec![2]);

    // And the bus that is read is copied out of the region at its own
    // offset - channel 2, not channel 0.
    let split = program
        .audio_ops
        .iter()
        .find_map(|op| match op {
            AudioOp::Split { channel, width, .. } => Some((*channel, *width)),
            _ => None,
        })
        .expect("the read bus is split out");
    assert_eq!(split, (2, 2));
}

/// A branch that reaches no output is not compiled, so it is not a reader
/// either, and the buffer it would have read comes straight back.
#[test]
fn a_pruned_branch_does_not_hold_the_buffer_it_would_have_read() {
    let mut graph = Graph::new();
    let input = stereo_in(&mut graph);
    let output = stereo_out(&mut graph);
    let mut last = input;
    for i in 0..6 {
        let node = plugin(&mut graph, i, 0);
        graph.connect(last, 0, node, 0);
        // Each stage also feeds a plugin that goes nowhere.
        let dangling = plugin(&mut graph, 100 + i, 0);
        graph.connect(node, 0, dangling, 0);
        last = node;
    }
    graph.connect(last, 0, output, 0);

    let program = compile(&graph, SLOTS).unwrap();
    assert!(
        program.buffers.len() <= 3,
        "the dangling branches read nothing, so they cost no buffers: {:?}",
        program.buffers
    );
}

/// The same question one level down: a bus whose only reader is a pruned
/// branch is not handed over, and nothing is copied out of it.
#[test]
fn a_bus_read_only_by_a_pruned_branch_is_not_handed_over() {
    let mut graph = Graph::new();
    let input = stereo_in(&mut graph);
    let output = stereo_out(&mut graph);
    let node = graph.add(
        NodeKind::Plugin(Plugin {
            instance: 0,
            ports: PluginPorts {
                audio_in: vec![2],
                audio_out: vec![2, 2],
                audio_out_shown: Vec::new(),
                ..PluginPorts::default()
            },
        }),
        AT,
    );
    let dangling = plugin(&mut graph, 1, 0);
    graph.connect(input, 0, node, 0);
    graph.connect(node, 0, output, 0);
    graph.connect(node, 1, dangling, 0);

    let program = compile(&graph, SLOTS).unwrap();
    let buses = program.audio_ops.iter().find_map(|op| match op {
        AudioOp::Plugin { output_buses, .. } => Some(output_buses.clone()),
        _ => None,
    });
    assert_eq!(buses, Some(vec![2]), "only the bus the output reads");
    assert!(
        !program
            .audio_ops
            .iter()
            .any(|op| matches!(op, AudioOp::Split { .. })),
        "nothing to split out: {:?}",
        program.audio_ops
    );
}

/// A socket carries the bus its dropdown says, not the bus it happens to
/// sit at. One socket pointed at the third bus is the whole node.
#[test]
fn an_output_socket_carries_the_bus_it_was_pointed_at() {
    let mut graph = Graph::new();
    let input = stereo_in(&mut graph);
    let output = stereo_out(&mut graph);
    let node = graph.add(
        NodeKind::Plugin(Plugin {
            instance: 0,
            ports: PluginPorts {
                audio_in: vec![2],
                audio_out: vec![2, 2, 2],
                // One socket, and it is the third bus.
                audio_out_shown: vec![2],
                ..PluginPorts::default()
            },
        }),
        AT,
    );
    graph.connect(input, 0, node, 0);
    graph.connect(node, 0, output, 0);

    let program = compile(&graph, SLOTS).expect("a pointed socket is routable");

    // All three buses are handed over, because the one that is read is the
    // last of them and a plugin's buses are activated as a prefix.
    let buses = program.audio_ops.iter().find_map(|op| match op {
        AudioOp::Plugin { output_buses, .. } => Some(output_buses.clone()),
        _ => None,
    });
    assert_eq!(buses, Some(vec![2, 2, 2]));
    let split = program
        .audio_ops
        .iter()
        .find_map(|op| match op {
            AudioOp::Split { channel, width, .. } => Some((*channel, *width)),
            _ => None,
        })
        .expect("the pointed bus is split out");
    assert_eq!(split, (4, 2), "the third bus starts at channel 4");
}

/// The one-bus case, which is nearly every patch, costs no copy.
#[test]
fn one_output_bus_still_writes_straight_into_the_next_node() {
    let mut graph = Graph::new();
    let input = stereo_in(&mut graph);
    let output = stereo_out(&mut graph);
    let node = plugin(&mut graph, 0, 0);
    graph.connect(input, 0, node, 0);
    graph.connect(node, 0, output, 0);

    let program = compile(&graph, SLOTS).unwrap();
    assert!(
        !program
            .audio_ops
            .iter()
            .any(|op| matches!(op, AudioOp::Split { .. })),
        "{:?}",
        program.audio_ops
    );
}

/// A link from a socket the node does not have. `connect` cannot make one,
/// so this is a hand-edited or future-versioned patch.
#[test]
fn a_link_from_an_output_bus_the_plugin_does_not_have_is_refused() {
    let mut graph = Graph::new();
    let input = stereo_in(&mut graph);
    let output = stereo_out(&mut graph);
    let node = plugin(&mut graph, 0, 0);
    graph.connect(input, 0, node, 0);
    graph.links.push(Link {
        from: node,
        from_port: 1,
        to: output,
        to_port: 0,
    });

    let error = compile(&graph, SLOTS).expect_err("there is no second bus");
    assert!(
        matches!(error, CompileError::TypeMismatch { .. }),
        "{error:?}"
    );
}

/// One branch goes through a plugin with latency, the other does not; the
/// short branch has to wait or the two phase-cancel at the mix.
#[test]
fn parallel_paths_of_unequal_latency_are_lined_up() {
    let mut graph = Graph::new();
    let input = stereo_in(&mut graph);
    let slow = plugin(&mut graph, 0, 128);
    let mix = graph.add(
        NodeKind::Mix(Mix {
            channels: 2,
            inputs: 2,
            gains: Vec::new(),
        }),
        AT,
    );
    let output = stereo_out(&mut graph);
    graph.connect(input, 0, slow, 0);
    graph.connect(slow, 0, mix, 0);
    // The dry branch, straight from the input.
    graph.connect(input, 0, mix, 2);
    graph.connect(mix, 0, output, 0);

    let program = compile(&graph, SLOTS).unwrap();
    let compensations: Vec<u32> = program
        .audio_ops
        .iter()
        .filter_map(|op| match op {
            AudioOp::Compensate { samples, .. } => Some(*samples),
            _ => None,
        })
        .collect();
    assert_eq!(compensations, vec![128], "the dry branch waits 128 samples");
    assert_eq!(program.latency, 128, "and the wrapper tells the DAW so");
}

#[test]
fn equal_paths_need_no_compensation() {
    let mut graph = Graph::new();
    let input = stereo_in(&mut graph);
    let a = plugin(&mut graph, 0, 64);
    let b = plugin(&mut graph, 1, 64);
    let mix = graph.add(
        NodeKind::Mix(Mix {
            channels: 2,
            inputs: 2,
            gains: Vec::new(),
        }),
        AT,
    );
    let output = stereo_out(&mut graph);
    graph.connect(input, 0, a, 0);
    graph.connect(input, 0, b, 0);
    graph.connect(a, 0, mix, 0);
    graph.connect(b, 0, mix, 2);
    graph.connect(mix, 0, output, 0);

    let program = compile(&graph, SLOTS).unwrap();
    assert!(
        !program
            .audio_ops
            .iter()
            .any(|op| matches!(op, AudioOp::Compensate { .. }))
    );
    assert_eq!(program.latency, 64);
}

/// A graph with no audio loop is not made to pay for one.
#[test]
fn only_an_audio_loop_forces_the_fine_grain() {
    let mut graph = Graph::new();
    let input = stereo_in(&mut graph);
    let node = plugin(&mut graph, 0, 0);
    let output = stereo_out(&mut graph);
    graph.connect(input, 0, node, 0);
    graph.connect(node, 0, output, 0);
    assert_eq!(
        chunking(&compile(&graph, SLOTS).unwrap()),
        Chunking::WholeBlock
    );

    // Feed the plugin from its own output, through a delay line.
    let read = graph.add(
        NodeKind::DelayRead(DelayRead {
            line: 0,
            ty: PortType::stereo(),
            max_time: real_of(1.0),
            time: real_of(0.01),
        }),
        AT,
    );
    let write = graph.add(
        NodeKind::DelayWrite(DelayWrite {
            line: 0,
            ty: PortType::stereo(),
        }),
        AT,
    );
    let mix = graph.add(
        NodeKind::Mix(Mix {
            channels: 2,
            inputs: 2,
            gains: Vec::new(),
        }),
        AT,
    );
    graph.connect(input, 0, mix, 0);
    graph.connect(read, 0, mix, 2);
    graph.connect(mix, 0, node, 0);
    graph.connect(node, 0, write, 0);

    assert_eq!(chunking(&compile(&graph, SLOTS).unwrap()), Chunking::SubBlock);
}

/// A param feedback loop is not an audio loop, and must not drag the audio
/// half down to sub-block granularity with it.
#[test]
fn a_param_loop_leaves_the_audio_grain_alone() {
    let mut graph = Graph::new();
    let input = stereo_in(&mut graph);
    let node = plugin(&mut graph, 0, 0);
    let output = stereo_out(&mut graph);
    graph.connect(input, 0, node, 0);
    graph.connect(node, 0, output, 0);

    let read = graph.add(
        NodeKind::DelayRead(DelayRead {
            line: 0,
            ty: PortType::Param,
            max_time: real_of(1.0),
            time: real_of(0.01),
        }),
        AT,
    );
    let write = graph.add(
        NodeKind::DelayWrite(DelayWrite {
            line: 0,
            ty: PortType::Param,
        }),
        AT,
    );
    graph.connect(read, 0, write, 0);

    assert_eq!(
        chunking(&compile(&graph, SLOTS).unwrap()),
        Chunking::WholeBlock
    );
}

/// A synth node with an instrument's ports.
fn synth(graph: &mut Graph, instance: usize) -> NodeId {
    graph.add(
        NodeKind::Plugin(Plugin {
            instance,
            ports: PluginPorts {
                audio_in: vec![],
                audio_out: vec![2],
                audio_out_shown: Vec::new(),
                accepts_notes: true,
                ..PluginPorts::default()
            },
        }),
        AT,
    )
}

/// What a plugin hears: the bus its notes come from, the nearest gate on the
/// way, and the keys that were taken out.
#[derive(Debug, Clone, Copy, PartialEq, Eq, Default)]
struct NoteRoute {
    bus: Option<u16>,
    gate: Option<u16>,
    mute: u128,
}

impl NoteRoute {
    fn from_bus(bus: u16) -> NoteRoute {
        NoteRoute {
            bus: Some(bus),
            ..NoteRoute::default()
        }
    }
}

/// Follows a note buffer back to where its events come from.
fn route_of(program: &Program, mut buf: Option<u16>) -> NoteRoute {
    let mut route = NoteRoute::default();
    for op in program.note_ops.iter().rev() {
        match *op {
            NoteOp::Input { out, bus } if Some(out) == buf => route.bus = Some(bus),
            NoteOp::Emit { a, out, .. } if Some(out) == buf => buf = a,
            NoteOp::Filter {
                a, out, gate, mute, ..
            } if Some(out) == buf => {
                route.gate = route.gate.or(gate);
                route.mute |= mute;
                buf = Some(a);
            }
            _ => {}
        }
    }
    route
}

fn note_sources(program: &Program) -> Vec<(usize, NoteRoute)> {
    program
        .audio_ops
        .iter()
        .filter_map(|op| match op {
            AudioOp::Plugin {
                instance, notes, ..
            } => Some((*instance, route_of(program, *notes))),
            _ => None,
        })
        .collect()
}

/// An analyser is fed audio and its output goes nowhere, which is exactly
/// the shape the compiler otherwise deletes.
#[test]
fn an_always_on_plugin_still_gets_its_input() {
    let mut graph = Graph::new();
    let input = stereo_in(&mut graph);
    let analyser = plugin(&mut graph, 0, 0);
    graph.connect(input, 0, analyser, 0);

    assert!(
        compile(&graph, SLOTS).unwrap().audio_ops.is_empty(),
        "nothing reads it, so nothing runs"
    );

    graph.node_mut(analyser).unwrap().always_on = true;
    let program = compile(&graph, SLOTS).unwrap();
    let feeds_it = program.audio_ops.iter().any(|op| {
        matches!(op, AudioOp::Plugin { instance: 0, input, .. }
            if program.audio_ops.iter().any(|w| matches!(w, AudioOp::Input { out, .. } if out == input)))
    });
    assert!(
        feeds_it,
        "the DAW's input reaches it: {:?}",
        program.audio_ops
    );
    assert_eq!(
        program.instances.len(),
        1,
        "and its buses are activated for it"
    );
}

/// Notes reach the instrument the graph points at, and no other.
#[test]
fn a_wired_instrument_hears_the_daw() {
    let mut graph = Graph::new();
    let notes = graph.add(NodeKind::NoteIn, AT);
    let synth = synth(&mut graph, 0);
    let output = stereo_out(&mut graph);
    // Port 0 is the notes port: this plugin has no audio inputs.
    graph.connect(notes, 0, synth, 0);
    graph.connect(synth, 0, output, 0);

    let program = compile(&graph, SLOTS).unwrap();
    assert_eq!(
        note_sources(&program),
        vec![(0, NoteRoute::from_bus(0))]
    );
}

/// An unwired notes port has to mean silence. Handing every instance every
/// event the DAW sent makes a second synth play along whatever the graph
/// says.
#[test]
fn an_unwired_instrument_hears_nothing() {
    let mut graph = Graph::new();
    let notes = graph.add(NodeKind::NoteIn, AT);
    let wired = synth(&mut graph, 0);
    let idle = synth(&mut graph, 1);
    let mix = graph.add(
        NodeKind::Mix(Mix {
            channels: 2,
            inputs: 2,
            gains: Vec::new(),
        }),
        AT,
    );
    let output = stereo_out(&mut graph);
    graph.connect(notes, 0, wired, 0);
    graph.connect(wired, 0, mix, 0);
    graph.connect(idle, 0, mix, 2);
    graph.connect(mix, 0, output, 0);

    let program = compile(&graph, SLOTS).unwrap();
    let mut sources = note_sources(&program);
    sources.sort_by_key(|&(i, _)| i);
    assert_eq!(
        sources,
        vec![
            (0, NoteRoute::from_bus(0)),
            (1, NoteRoute::default())
        ]
    );
}

/// A gate on the way does not change *where* the notes come from - it adds
/// a lane the audio half reads each chunk to decide whether they get
/// through.
#[test]
fn a_note_gate_leaves_the_source_and_adds_a_lane() {
    let mut graph = Graph::new();
    let notes = graph.add(NodeKind::NoteIn, AT);
    let control = graph.add(NodeKind::SlotIn(SlotIn { slot: 0 }), AT);
    let gate = graph.add(
        NodeKind::NoteGate(NoteGate {
            threshold: real_of(0.5),
            invert: false,
        }),
        AT,
    );
    let synth = synth(&mut graph, 0);
    let output = stereo_out(&mut graph);
    graph.connect(notes, 0, gate, 0);
    graph.connect(control, 0, gate, 1);
    graph.connect(gate, 0, synth, 0);
    graph.connect(synth, 0, output, 0);

    let program = compile(&graph, SLOTS).unwrap();
    let routes = note_sources(&program);
    assert_eq!(routes.len(), 1);
    let route = routes[0].1;
    assert_eq!(route.bus, Some(0));
    let lane = route.gate.expect("a gate books a lane");
    assert!(
        lane >= program.audio_lane_base,
        "a note gate's lane is an audio lane, not a parameter one"
    );
    assert!(
        program.outputs.iter().any(|&(l, _)| l == lane),
        "the parameter half drives the lane it booked"
    );
    // Shut, the stream keeps its releases so nothing hangs.
    let played = [note_on(60), note_off(60)];
    let shut = hear(&graph, &played, 0.0);
    assert_eq!(shut.len(), 1);
    assert!(matches!(shut[0], Event::Note(NoteEvent::NoteOff { .. })));
    assert_eq!(hear(&graph, &played, 1.0).len(), 2);
}

/// Two gates in series pass notes only when both are open, and they say so
/// in one lane: the nearer gate folds the further one into its condition.
#[test]
fn gates_in_series_become_one_lane() {
    let mut graph = Graph::new();
    let notes = graph.add(NodeKind::NoteIn, AT);
    let first = graph.add(
        NodeKind::NoteGate(NoteGate {
            threshold: real_of(0.5),
            invert: false,
        }),
        AT,
    );
    let second = graph.add(
        NodeKind::NoteGate(NoteGate {
            threshold: real_of(0.5),
            invert: false,
        }),
        AT,
    );
    let synth = synth(&mut graph, 0);
    let output = stereo_out(&mut graph);
    graph.connect(notes, 0, first, 0);
    graph.connect(first, 0, second, 0);
    graph.connect(second, 0, synth, 0);
    graph.connect(synth, 0, output, 0);

    let program = compile(&graph, SLOTS).unwrap();
    let route = note_sources(&program)[0].1;
    assert_eq!(route.bus, Some(0));
    assert!(route.gate.is_some());
    assert!(
        program
            .ops
            .iter()
            .any(|op| matches!(op, Op::Math { .. })),
        "the second gate multiplies the first one's condition into its own"
    );
}

/// A selecting key switch has one output per destination, all carrying one
/// stream, and each gated by a lane of its own: whichever way the switch
/// stands, one synth hears the notes and the other does not.
#[test]
fn a_selecting_key_switch_gates_each_output_of_its_own() {
    let mut graph = Graph::new();
    let notes = graph.add(NodeKind::NoteIn, AT);
    let switch = graph.add(
        NodeKind::KeySwitch(KeySwitch {
            keys: vec![24, 25],
            mode: KeySwitchMode::Select,
            mute_keys: true,
        }),
        AT,
    );
    let first = synth(&mut graph, 0);
    let second = synth(&mut graph, 1);
    let mix = graph.add(
        NodeKind::Mix(Mix {
            channels: 2,
            inputs: 2,
            gains: Vec::new(),
        }),
        AT,
    );
    let output = stereo_out(&mut graph);
    graph.connect(notes, 0, switch, 0);
    graph.connect(switch, 0, first, 0);
    graph.connect(switch, 1, second, 0);
    graph.connect(first, 0, mix, 0);
    graph.connect(second, 0, mix, 2);
    graph.connect(mix, 0, output, 0);

    let program = compile(&graph, SLOTS).unwrap();
    assert_eq!(
        program.latch_nodes,
        vec![switch],
        "the switch keeps a latch"
    );
    let mut routes = note_sources(&program);
    routes.sort_by_key(|&(i, _)| i);
    let (a, b) = (routes[0].1, routes[1].1);
    assert_eq!(a.bus, Some(0));
    assert_eq!(b.bus, Some(0));
    assert_ne!(
        a.gate, b.gate,
        "the two outputs are gated by different lanes"
    );
    let expected = (1u128 << 24) | (1u128 << 25);
    assert_eq!(
        (a.mute, b.mute),
        (expected, expected),
        "switching keys are filtered from the sounding note stream"
    );
}

/// Clearing `mute_keys` puts the switching keys back into the stream, for
/// the patch where the key that selects a layer is also meant to play it.
#[test]
fn an_unmuted_key_switch_passes_its_own_keys() {
    let mut graph = Graph::new();
    let notes = graph.add(NodeKind::NoteIn, AT);
    let switch = graph.add(
        NodeKind::KeySwitch(KeySwitch {
            keys: vec![24, 25],
            mode: KeySwitchMode::Select,
            mute_keys: false,
        }),
        AT,
    );
    let synth = synth(&mut graph, 0);
    let output = stereo_out(&mut graph);
    graph.connect(notes, 0, switch, 0);
    graph.connect(switch, 0, synth, 0);
    graph.connect(synth, 0, output, 0);

    let program = compile(&graph, SLOTS).unwrap();
    let routes = note_sources(&program);
    assert_eq!(routes[0].1.mute, 0);
}

/// A key parameter hands the stream on through a notes output of its own,
/// with the keys that pick the value taken out of it.
#[test]
fn a_key_parameter_passes_notes_on_without_its_own_keys() {
    let mut graph = Graph::new();
    let notes = graph.add(NodeKind::NoteIn, AT);
    let key = graph.add(
        NodeKind::KeyParam(KeyParam {
            mode: KeyParamMode::Select,
            keys: vec![24, 25],
            values: reals(&[0.0, 1.0]),
            mute_keys: true,
        }),
        AT,
    );
    let synth = synth(&mut graph, 0);
    let output = stereo_out(&mut graph);
    graph.connect(notes, 0, key, 0);
    graph.connect(key, 1, synth, 0);
    graph.connect(synth, 0, output, 0);

    let program = compile(&graph, SLOTS).unwrap();
    let routes = note_sources(&program);
    assert_eq!(routes[0].1.bus, Some(0));
    assert_eq!(
        routes[0].1.mute,
        (1u128 << 24) | (1u128 << 25),
        "picking keys are filtered from the sounding note stream"
    );
}

/// Clearing `mute_keys` puts the picking keys back.
#[test]
fn an_unmuted_key_parameter_passes_its_own_keys() {
    let mut graph = Graph::new();
    let notes = graph.add(NodeKind::NoteIn, AT);
    let key = graph.add(
        NodeKind::KeyParam(KeyParam {
            mode: KeyParamMode::Select,
            keys: vec![24, 25],
            values: reals(&[0.0, 1.0]),
            mute_keys: false,
        }),
        AT,
    );
    let synth = synth(&mut graph, 0);
    let output = stereo_out(&mut graph);
    graph.connect(notes, 0, key, 0);
    graph.connect(key, 1, synth, 0);
    graph.connect(synth, 0, output, 0);

    let program = compile(&graph, SLOTS).unwrap();
    let routes = note_sources(&program);
    assert_eq!(routes[0].1.mute, 0);
}

/// A key mute takes its keys out and leaves everything else alone,
/// including a gate above it.
#[test]
fn a_key_mute_swallows_its_keys_and_keeps_the_gate_above_it() {
    let mut graph = Graph::new();
    let notes = graph.add(NodeKind::NoteIn, AT);
    let gate = graph.add(
        NodeKind::NoteGate(NoteGate {
            threshold: real_of(0.5),
            invert: false,
        }),
        AT,
    );
    let mute = graph.add(
        NodeKind::NoteMute(NoteMute { keys: vec![24, 26] }),
        AT,
    );
    let synth = synth(&mut graph, 0);
    let output = stereo_out(&mut graph);
    graph.connect(notes, 0, gate, 0);
    graph.connect(gate, 0, mute, 0);
    graph.connect(mute, 0, synth, 0);
    graph.connect(synth, 0, output, 0);

    let program = compile(&graph, SLOTS).unwrap();
    let routes = note_sources(&program);
    assert_eq!(routes[0].1.bus, Some(0));
    assert_eq!(routes[0].1.mute, (1u128 << 24) | (1u128 << 26));
    assert!(
        routes[0].1.gate.is_some(),
        "this gate upstream of the mute still reaches the synth"
    );
}

/// The notes port sits after the audio inputs, so an effect that also takes
/// notes must not read its sidechain link as a note link.
#[test]
fn an_effect_that_takes_notes_finds_its_notes_port() {
    let mut graph = Graph::new();
    let input = stereo_in(&mut graph);
    let notes = graph.add(NodeKind::NoteIn, AT);
    let node = graph.add(
        NodeKind::Plugin(Plugin {
            instance: 0,
            ports: PluginPorts {
                audio_in: vec![2],
                audio_out: vec![2],
                audio_out_shown: Vec::new(),
                accepts_notes: true,
                ..PluginPorts::default()
            },
        }),
        AT,
    );
    let output = stereo_out(&mut graph);
    graph.connect(input, 0, node, 0);
    // Port 1 is the notes port: port 0 is the audio input.
    graph.connect(notes, 0, node, 1);
    graph.connect(node, 0, output, 0);

    let program = compile(&graph, SLOTS).unwrap();
    assert_eq!(
        note_sources(&program),
        vec![(0, NoteRoute::from_bus(0))]
    );
}

/// A plugin that does not take notes has no notes port, and nothing may be
/// wired to it - so it stays `None` whatever the user does.
#[test]
fn a_plugin_that_takes_no_notes_is_never_given_any() {
    let mut graph = Graph::new();
    let input = stereo_in(&mut graph);
    let node = plugin(&mut graph, 0, 0);
    let output = stereo_out(&mut graph);
    graph.connect(input, 0, node, 0);
    graph.connect(node, 0, output, 0);

    let program = compile(&graph, SLOTS).unwrap();
    assert_eq!(note_sources(&program), vec![(0, NoteRoute::default())]);
}

/// Instrument -> effect -> effect. Only the instrument hears the notes, and
/// the effects run after it in order.
#[test]
fn an_instrument_into_two_effects_routes_notes_only_to_the_instrument() {
    let mut graph = Graph::new();
    let notes = graph.add(NodeKind::NoteIn, AT);
    let synth = synth(&mut graph, 0);
    let first = plugin(&mut graph, 1, 0);
    let second = plugin(&mut graph, 2, 0);
    let output = stereo_out(&mut graph);
    graph.connect(notes, 0, synth, 0);
    graph.connect(synth, 0, first, 0);
    graph.connect(first, 0, second, 0);
    graph.connect(second, 0, output, 0);

    let program = compile(&graph, SLOTS).unwrap();
    assert_eq!(
        note_sources(&program),
        vec![
            (0, NoteRoute::from_bus(0)),
            (1, NoteRoute::default()),
            (2, NoteRoute::default())
        ],
        "the order is the order they run in, and only the synth hears notes"
    );
}

/// A plugin with a sidechain socket nobody wired is activated with one bus.
///
/// Not "activated with a silent sidechain": a compressor whose sidechain is
/// switched on and fed nothing ducks to silence.
#[test]
fn an_unwired_sidechain_is_not_switched_on() {
    let mut graph = Graph::new();
    let input = stereo_in(&mut graph);
    let node = with_sidechain(&mut graph, 0, 1);
    let output = stereo_out(&mut graph);
    graph.connect(input, 0, node, 0);
    graph.connect(node, 0, output, 0);

    let program = compile(&graph, SLOTS).unwrap();
    assert_eq!(program.instances[0].aux_inputs, Vec::<u16>::new());
    assert!(
        !program
            .audio_ops
            .iter()
            .any(|op| matches!(op, AudioOp::Gather { .. })),
        "one bus at the right width needs no assembling"
    );
}

/// Wiring the sidechain switches the bus on and assembles the input region.
#[test]
fn a_wired_sidechain_is_gathered_behind_the_main_bus() {
    let mut graph = Graph::new();
    let input = stereo_in(&mut graph);
    let key = stereo_in(&mut graph);
    let node = with_sidechain(&mut graph, 0, 1);
    let output = stereo_out(&mut graph);
    graph.connect(input, 0, node, 0);
    graph.connect(key, 0, node, 1);
    graph.connect(node, 0, output, 0);

    let program = compile(&graph, SLOTS).unwrap();
    assert_eq!(program.instances[0].input_channels, 2);
    assert_eq!(program.instances[0].aux_inputs, vec![1]);

    let gather = program
        .audio_ops
        .iter()
        .find_map(|op| match op {
            AudioOp::Gather { buses, .. } => Some(buses.clone()),
            _ => None,
        })
        .expect("the two buses have to be assembled into one region");
    assert_eq!(gather.len(), 2);
    assert_eq!(gather[0].1, 2, "main bus stays stereo");
    assert_eq!(
        gather[1].1, 1,
        "the sidechain is the width the plugin wants"
    );

    let buses = program
        .audio_ops
        .iter()
        .find_map(|op| match op {
            AudioOp::Plugin { input_buses, .. } => Some(input_buses.clone()),
            _ => None,
        })
        .unwrap();
    assert_eq!(buses, vec![2, 1]);
}

/// A stereo source into a mono sidechain is summed, not halved and not
/// left-only: a detector that ignored one channel would miss half the
/// signal it is supposed to react to.
#[test]
fn a_stereo_source_reaches_a_mono_sidechain_as_a_sum() {
    let mut graph = Graph::new();
    let input = stereo_in(&mut graph);
    let key = stereo_in(&mut graph);
    let node = with_sidechain(&mut graph, 0, 1);
    let output = stereo_out(&mut graph);
    graph.connect(input, 0, node, 0);
    graph.connect(key, 0, node, 1);
    graph.connect(node, 0, output, 0);

    let mut engine = Rig::new();
    engine.prepare(8, &[2]);
    load(&mut engine, &graph);

    // Both stereo inputs read DAW bus 0, so the sidechain sees the same
    // two channels: 1.0 and 2.0, which have to arrive as 3.0.
    let daw_in = [1.0f32, 1.0, 1.0, 1.0, 2.0, 2.0, 2.0, 2.0];
    let mut daw_out = [0.0f32; 8];
    let mut seen = RecordInput::default();
    engine.run_audio(&ctx(4), &daw_in, &mut daw_out, &mut seen);

    assert_eq!(seen.channels, 3, "stereo main plus mono sidechain");
    assert_eq!(seen.first_of_each, vec![1.0, 2.0, 3.0]);
}

/// A mono plugin node feeding a stereo socket is heard on both channels.
///
/// The DAW asks for stereo and gets a buffer whose right channel was never
/// written: the sound is in the left speaker alone. What the left channel
/// carries has to be copied across, which is what a host does with a mono
/// track.
#[test]
fn a_mono_source_reaches_both_channels_of_a_stereo_output() {
    let mut graph = Graph::new();
    let input = stereo_in(&mut graph);
    let node = mono_plugin(&mut graph, 0);
    let output = stereo_out(&mut graph);
    graph.connect(input, 0, node, 0);
    graph.connect(node, 0, output, 0);

    let mut engine = Rig::new();
    engine.prepare(8, &[2]);
    load(&mut engine, &graph);

    // 1.0 on the left and 2.0 on the right are summed into the plugin's
    // mono bus, so both output channels have to read 3.0.
    let daw_in = [1.0f32, 1.0, 1.0, 1.0, 2.0, 2.0, 2.0, 2.0];
    let mut daw_out = [0.0f32; 8];
    engine.run_audio(&ctx(4), &daw_in, &mut daw_out, &mut PassThrough);
    assert_eq!(daw_out, [3.0f32; 8]);
}

/// A wider source at any other mono socket is averaged, so that a way there and back
/// keeps its level.
#[test]
fn a_stereo_source_reaches_a_mono_output_as_an_average() {
    let mut graph = Graph::new();
    let input = stereo_in(&mut graph);
    let output = graph.add(
        NodeKind::AudioOut(AudioOut {
            bus: 0,
            channels: 1,
        }),
        AT,
    );
    graph.connect(input, 0, output, 0);

    let mut engine = Rig::new();
    engine.prepare(8, &[2]);
    load(&mut engine, &graph);

    let daw_in = [1.0f32, 1.0, 1.0, 1.0, 2.0, 2.0, 2.0, 2.0];
    let mut daw_out = [0.0f32; 8];
    engine.run_audio(&ctx(4), &daw_in, &mut daw_out, &mut PassThrough);
    assert_eq!(daw_out[..4], [1.5f32; 4]);
}

/// The same conversion on the way into a Mix, which sums channel by
/// channel across its own width.
///
/// Without it the mono input's second channel is read from whatever buffer
/// happens to sit next to it in the pool, which is worse than silence.
#[test]
fn a_mono_source_is_widened_before_a_stereo_mix_sums_it() {
    let mut graph = Graph::new();
    let input = stereo_in(&mut graph);
    let node = mono_plugin(&mut graph, 0);
    let mix = graph.add(
        NodeKind::Mix(Mix {
            channels: 2,
            inputs: 2,
            gains: Vec::new(),
        }),
        AT,
    );
    let output = stereo_out(&mut graph);
    graph.connect(input, 0, node, 0);
    // The mono plugin into the first input, the stereo bus into the second.
    graph.connect(node, 0, mix, 0);
    graph.connect(input, 0, mix, 2);
    graph.connect(mix, 0, output, 0);

    let mut engine = Rig::new();
    engine.prepare(8, &[2]);
    load(&mut engine, &graph);

    let daw_in = [1.0f32, 1.0, 1.0, 1.0, 2.0, 2.0, 2.0, 2.0];
    let mut daw_out = [0.0f32; 8];
    engine.run_audio(&ctx(4), &daw_in, &mut daw_out, &mut PassThrough);
    // 3.0 on both channels out of the plugin, plus the input itself.
    assert_eq!(daw_out, [4.0, 4.0, 4.0, 4.0, 5.0, 5.0, 5.0, 5.0]);
}

/// A socket that already matches what is wired to it converts nothing.
#[test]
fn a_matching_width_costs_no_conversion() {
    let mut graph = Graph::new();
    let input = stereo_in(&mut graph);
    let node = plugin(&mut graph, 0, 0);
    let output = stereo_out(&mut graph);
    graph.connect(input, 0, node, 0);
    graph.connect(node, 0, output, 0);

    let program = compile(&graph, SLOTS).unwrap();
    assert!(
        !program
            .audio_ops
            .iter()
            .any(|op| matches!(op, AudioOp::Gather { .. })),
        "nothing to convert on either side of a stereo plugin"
    );
}

/// A plugin whose main bus is mono in both directions.
fn mono_plugin(graph: &mut Graph, instance: usize) -> NodeId {
    graph.add(
        NodeKind::Plugin(Plugin {
            instance,
            ports: PluginPorts {
                audio_in: vec![1],
                audio_out: vec![1],
                audio_out_shown: Vec::new(),
                ..PluginPorts::default()
            },
        }),
        AT,
    )
}

/// A stand-in sub-plugin that writes its input straight back out.
struct PassThrough;

impl AudioInstances for PassThrough {
    fn process(
        &mut self,
        _instance: u32,
        _notes: &[Event],
        input: &[f32],
        output: &mut [f32],
        chunk: AudioChunk,
    ) {
        for ch in 0..chunk.output_channels {
            let range = chunk.channel(ch);
            if ch < chunk.input_channels {
                output[range.clone()].copy_from_slice(&input[range]);
            } else {
                output[range].fill(0.0);
            }
        }
    }
}

/// Records the shape and content of what a plugin node was handed.
#[derive(Default)]
struct RecordInput {
    channels: u16,
    first_of_each: Vec<f32>,
}

impl AudioInstances for RecordInput {
    fn process(
        &mut self,
        _instance: u32,
        _notes: &[Event],
        input: &[f32],
        output: &mut [f32],
        chunk: AudioChunk,
    ) {
        self.channels = chunk.input_channels;
        self.first_of_each = (0..chunk.input_channels)
            .map(|ch| input[ch as usize * chunk.frames as usize])
            .collect();
        for ch in 0..chunk.output_channels {
            output[chunk.channel(ch)].fill(0.0);
        }
    }
}
