//! The messages that pass between the display and the application, and what
//! the application answers.

use vstd::prelude::*;

verus! {

/// What the application asks the display to do.
pub enum UiMessage {
    /// Add a line to the log.
    Log(String),
}

/// What the display reports to the application.
pub enum ControllerMessage {
    /// A line for the log.
    LogMessage(String),
    /// A note on the selected character.
    AddNote(String),
}

/// The application's answer to a report from the display: both a log line and
/// a note are shown in the log, as they are.
pub fn respond(msg: ControllerMessage) -> (answer: UiMessage)
    ensures
        answer == match msg {
            ControllerMessage::LogMessage(text) => UiMessage::Log(text),
            ControllerMessage::AddNote(text) => UiMessage::Log(text),
        },
{
    match msg {
        ControllerMessage::LogMessage(text) => UiMessage::Log(text),
        ControllerMessage::AddNote(text) => UiMessage::Log(text),
    }
}

} // verus!
