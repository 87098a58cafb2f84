//! Conversations, as far as schedules and projects need them.

use crate::heartbeat::{Recovery, Schedule};
use crate::text;
use crate::time::Stamp;
use vstd::prelude::*;

verus! {

/// A schedule that a conversation carries itself.
#[derive(Debug, Clone, PartialEq, Eq)]
pub struct Heartbeat {
    pub schedule: Schedule,
    pub prompt: String,
    pub enabled: bool,
    pub recovery: Recovery,
    pub last_run: Option<Stamp>,
    pub last_outcome: Option<String>,
}

impl Heartbeat {
    pub fn new(schedule: Schedule, prompt: &str) -> (r: Self)
        ensures
            r.schedule == schedule,
            r.prompt@ == text::trim(prompt@),
            r.enabled,
            r.recovery == Recovery::OnTime,
            r.last_run is None,
            r.last_outcome is None,
    {
        let chars = text::chars_of(prompt);
        Heartbeat {
            schedule,
            prompt: text::string_of(text::trimmed(chars.as_slice())),
            enabled: true,
            recovery: Recovery::OnTime,
            last_run: None,
            last_outcome: None,
        }
    }
}

} // verus!
