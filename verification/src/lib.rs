//! Verified core of a real-time speech vocoder.

pub mod buffer;
pub mod chunks;
pub mod config;
pub mod contour;
pub mod d4c;
pub mod departures;
pub mod drawing;
pub mod edits;
pub mod eval;
pub mod framing;
pub mod glide;
pub mod heap;
pub mod median;
pub mod natural;
pub mod notes;
pub mod num;
pub mod periods;
pub mod pitch;
pub mod ranks;
pub mod render;
pub mod ring;
pub mod rng;
pub mod roundtrip;
pub mod segment;
pub mod slopes;
pub mod smooth;
pub mod sounding;
pub mod spectrum;
pub mod steady;
pub mod stream;
pub mod stretch;
pub mod svg;
pub mod synth;
pub mod text;
pub mod tracks;
pub mod vibrato;
pub mod vocoder;
pub mod voicing;
pub mod wav;
