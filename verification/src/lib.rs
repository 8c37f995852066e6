//! The logic behind `amdl`, a harness for music libraries: fetching, validating and
//! transcoding tracks, and keeping covers, tags and lyrics complete.
//!
//! Each module decides what one command does, from plain values to plain values: what was
//! read of a file, what a service answered, what a tool printed. Reading, sending and
//! running tools is left to the program around this library.
//!
//! Three rules hold throughout. A source library is never written to. A run can be taken up
//! again, and a run can be undone. And what is only likely is never written: a blank field
//! beats a wrong one.
pub mod align;
pub mod commands;
pub mod config;
pub mod convert;
pub mod cookies;
pub mod covers;
pub mod dedup;
pub mod doctor;
pub mod download;
pub mod identify;
pub mod journal;
pub mod json;
pub mod lyrics;
pub mod path;
pub mod recover;
pub mod report;
pub mod retag;
pub mod scan;
pub mod sort;
pub mod stats;
pub mod tags;
pub mod text;
pub mod ui;
pub mod validate;
