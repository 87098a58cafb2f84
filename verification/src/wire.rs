//! What is sent to the model.

use vstd::prelude::*;

verus! {

/// Who says something.
#[derive(Debug, Clone, Copy, PartialEq, Eq, Structural)]
pub enum Role {
    System,
    User,
}

/// One message of a request.
#[derive(Debug, Clone, PartialEq, Eq)]
pub struct Message {
    pub role: Role,
    pub content: String,
}

impl Message {
    pub fn system(content: String) -> (r: Self)
        ensures
            r.role == Role::System,
            r.content == content,
    {
        Message { role: Role::System, content }
    }

    pub fn user(content: String) -> (r: Self)
        ensures
            r.role == Role::User,
            r.content == content,
    {
        Message { role: Role::User, content }
    }
}

/// A request for one reply.
#[derive(Debug, Clone, PartialEq, Eq)]
pub struct ChatRequest {
    pub messages: Vec<Message>,
    /// In hundredths.
    pub temperature: Option<u32>,
    /// In hundredths.
    pub top_p: Option<u32>,
    pub max_tokens: Option<u32>,
    /// The names of the tools that the reply may call.
    pub tools: Vec<String>,
}

} // verus!
