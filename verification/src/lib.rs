//! Finds multi-step command sequences that keep being repeated by hand.
//!
//! Everything here is a function from plain values to plain values: the
//! database, the file system, the terminal and the network stay with the
//! program that uses this library.
pub mod collect;
pub mod config;
pub mod count;
pub mod doctor;
pub mod draft;
pub mod evolve;
pub mod gain;
pub mod group;
pub mod intern;
pub mod json;
pub mod mine;
pub mod normalize;
pub mod number;
pub mod order;
pub mod path;
pub mod regexp;
pub mod report;
pub mod scan;
pub mod seed;
pub mod serve;
pub mod settings;
pub mod stats;
pub mod text;
pub mod theme;
pub mod tool;
pub mod tui;
pub mod watch;
