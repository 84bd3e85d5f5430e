//! A small MIDI sequencing library: tick arithmetic and time signatures,
//! Euclidean rhythms, sequences of notes and chords, drum patterns, and the
//! compiler that turns them into delta-timed MIDI event lists.
pub mod drum;
pub mod error;
pub mod midi;
pub mod note;
pub mod rhythm;
pub mod scales;
pub mod sequence;
pub mod time;
pub mod util;
