//! Readers for the logs that shells and AI tools leave behind.
pub mod claude;
pub mod codex;
pub mod gemini;
pub mod hook;
pub mod iso;
pub mod outcome;
pub mod record;
pub mod zsh;
