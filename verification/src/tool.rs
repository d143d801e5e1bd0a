//! The coding agent that drafts: what it is called and where it finds skills.
use vstd::prelude::*;

verus! {

/// The drafting agent.
pub struct Tool {
    /// The command that runs it, which is also the name of its history.
    pub command: String,
    /// The name of the product.
    pub product: String,
    /// Where it finds skills, below the home directory.
    pub skills: String,
}

/// What a [`Tool`] holds.
pub struct ToolView {
    pub command: Seq<char>,
    pub product: Seq<char>,
    pub skills: Seq<char>,
}

impl View for Tool {
    type V = ToolView;

    open spec fn view(&self) -> ToolView {
        ToolView { command: self.command@, product: self.product@, skills: self.skills@ }
    }
}

} // verus!
