//! Streaming chunk-stitching and sentence assembly for long-audio
//! transcription.
//!
//! A long mono recording is cut into bounded, overlapping windows; an
//! external speech recognizer turns each window into timestamped text
//! tokens; this library plans the windows, keeps only the trusted central
//! part of each window's output, carries unfinished words and sentences
//! across window boundaries, and decides where sentences end, so that the
//! final transcript has no duplicated and no dropped text at the seams.
//!
//! Time is measured in integer milliseconds from the start of the
//! recording (window-relative until seam deduplication converts it).
//! The recognizer itself, audio decoding, and all I/O stay outside this
//! crate; they hand in plain values and take plain values back.

pub mod window;

pub mod types;

pub mod text;

pub mod boundary;

pub mod seam;

pub mod assemble;

pub mod pipeline;

pub mod persist;
