//! Application-level events: the coarse per-turn events the control loop
//! reacts to, and the modes the interface can be in.

use vstd::prelude::*;

verus! {

/// Coarse event of one generation turn as the control loop sees it: a piece
/// of text to show, completion, or a failure with its reason.
#[derive(Debug, Clone)]
pub enum AppEvent {
    /// A chunk of text received from the model.
    AiResponseChunk(String),
    /// The model's response completed.
    AiResponseDone,
    /// An error occurred during generation.
    AiError(String),
}

/// Which screen of the interface is active.
#[derive(Debug, Clone, PartialEq, Eq, Structural)]
pub enum AppMode {
    Chat,
    ConversationList,
    Settings,
    ModelSelector,
}

} // verus!
