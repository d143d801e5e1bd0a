//! Mining history for what keeps being repeated by hand.
pub mod candidates;
pub mod clusters;
pub mod intents;
pub mod loops;
pub mod pattern;
pub mod prompts;
pub mod sequences;
pub mod sessions;
pub mod streams;
pub mod timing;
pub mod workflows;
