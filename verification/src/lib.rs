//! A node graph for audio, compiled to a flat program and run block by block.

pub mod number;
pub mod event;
pub mod tables;
pub mod ir;
pub mod note_state;
pub mod lines;
pub mod port;
pub mod nodes;
pub mod graph;
pub mod error;
pub mod declare;
pub mod stages;
pub mod order;
pub mod note_kinds;
pub mod note_laws;
pub mod note_half;
pub mod param_cx;
pub mod emit_params;
pub mod pool;
pub mod audio_cx;
pub mod emit_audio;
pub mod program;
pub mod compile;
pub mod arrivals;
pub mod latency;
pub mod audio_nodes;
pub mod readers;
pub mod note_nodes;
pub mod program_laws;
pub mod wiring;
pub mod settings;
pub mod param_nodes;
pub mod idle;
pub mod ledger;
pub mod params;
pub mod param_laws;
pub mod sound;
pub mod engine;
pub mod schedule;
pub mod run;
pub mod sound_laws;
pub mod ledger_laws;
pub mod block;
pub mod engine_laws;
pub mod upkeep;
pub mod block_size;
pub mod frames;
pub mod answering;
pub mod feedback;
pub mod written;
