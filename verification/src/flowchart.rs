//! The kinds of node that a flowchart is drawn from.

use vstd::prelude::*;

verus! {

/// What a flowchart node stands for, which decides the shape it is drawn with.
#[derive(Clone, Copy, Debug, PartialEq, Eq, Structural)]
pub enum FlowchartNodeKind {
    /// The entry point, drawn as a filled dot.
    Start,
    /// A condition with a branch for each outcome.
    Decision,
    /// A step that is carried out.
    Action,
}

} // verus!
