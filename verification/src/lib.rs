//! Decoder for a fixed-layout binary waveform recording format.
//!
//! An input file carries a magic-tagged 522-byte prefix (10 bytes of
//! magic, then a 512-byte header) followed by interleaved
//! little-endian 16-bit samples. The library decodes the header,
//! plans aligned byte chunks for bounded-parallelism decoding,
//! converts raw samples to scaled micro-unit measurements, and merges
//! per-channel fragments into one JSON document. All of that is
//! verified; file, network and thread plumbing lives outside.

pub mod broker;
pub mod command;
pub mod config;
pub mod event;
pub mod metadata;
pub mod notifier;
pub mod numfmt;
pub mod recipe;

