//! The full-screen review of candidates: what happens on keys and finished
//! drafts, and what is shown.
pub mod board;
pub mod view;
