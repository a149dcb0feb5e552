//! What can go wrong with collected events.

use crate::digits::{append_decimal, decimal};
use vstd::prelude::*;
use vstd::string::*;

verus! {

#[derive(Clone, Debug)]
pub enum ObserverError {
    Io(String),
    Json { line: usize, detail: String },
    InvalidEvent { event_id: String, message: String },
    Usage(String),
}

impl ObserverError {
    /// The error in words.
    pub open spec fn words(self) -> Seq<char> {
        match self {
            ObserverError::Io(detail) => "I/O error: "@ + detail@,
            ObserverError::Json { line, detail } => "invalid JSON event on line "@ + decimal(
                line as nat,
            ) + ": "@ + detail@,
            ObserverError::InvalidEvent { event_id, message } => "invalid event "@ + event_id@
                + ": "@ + message@,
            ObserverError::Usage(message) => message@,
        }
    }

    /// The error in words.
    pub fn message(&self) -> (text: String)
        ensures
            text@ == self.words(),
    {
        match self {
            ObserverError::Io(detail) => {
                let mut text = "I/O error: ".to_owned();
                text.append(detail.as_str());
                text
            },
            ObserverError::Json { line, detail } => {
                let mut text = "invalid JSON event on line ".to_owned();
                append_decimal(&mut text, *line as u64);
                text.append(": ");
                text.append(detail.as_str());
                text
            },
            ObserverError::InvalidEvent { event_id, message } => {
                let mut text = "invalid event ".to_owned();
                text.append(event_id.as_str());
                text.append(": ");
                text.append(message.as_str());
                text
            },
            ObserverError::Usage(message) => message.clone(),
        }
    }
}

/// Whether the error blames the event, in these words.
pub open spec fn blames(error: ObserverError, event_id: Seq<char>, message: Seq<char>) -> bool {
    error matches ObserverError::InvalidEvent { event_id: id, message: words } && id@ == event_id
        && words@ == message
}

/// The error that blames the event, in these words.
pub fn invalid(event_id: &str, message: &str) -> (error: ObserverError)
    ensures
        blames(error, event_id@, message@),
{
    ObserverError::InvalidEvent { event_id: event_id.to_owned(), message: message.to_owned() }
}

} // verus!
