//! Drafting an automation: what is asked of the drafter, how its answer is read,
//! and where the result is installed.
pub mod install;
pub mod prompt;
pub mod reply;
pub mod wording;
