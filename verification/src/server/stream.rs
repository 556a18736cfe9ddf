//! What is streamed to a client.

use crate::text::{begins_with, same_text, strip_prefix};
use vstd::prelude::*;
use vstd::string::*;

verus! {

/// One event of a stream.
#[derive(Debug)]
pub enum StreamEvent {
    /// The data as it is.
    Raw(String),
    /// A piece of the answer, with the reason why it is the last, if it is.
    Chunk { content: String, finish_reason: Option<String> },
}

/// The contents of a [`StreamEvent`].
#[verifier::ext_equal]
pub enum StreamView {
    Raw(Seq<char>),
    Chunk { content: Seq<char>, finish_reason: Option<Seq<char>> },
}

impl View for StreamEvent {
    type V = StreamView;

    open spec fn view(&self) -> StreamView {
        match self {
            StreamEvent::Raw(s) => StreamView::Raw(s@),
            StreamEvent::Chunk { content, finish_reason } => StreamView::Chunk {
                content: content@,
                finish_reason: match finish_reason {
                    Some(r) => Some(r@),
                    None => None,
                },
            },
        }
    }
}

/// The text of a failure within a stream.
pub open spec fn failure_text(cause: Seq<char>) -> Seq<char> {
    "[Error: "@ + cause + "]"@
}

/// What a chat streams for an item: the end mark and what looks like an object
/// as they are, text as a piece of the answer, and a failure as the last
/// piece.
pub open spec fn chat_event_of(item: Result<Seq<char>, Seq<char>>) -> StreamView {
    match item {
        Ok(data) => if data == "[DONE]"@ || begins_with(data, "{"@) {
            StreamView::Raw(data)
        } else {
            StreamView::Chunk { content: data, finish_reason: None }
        },
        Err(e) => StreamView::Chunk {
            content: failure_text(e),
            finish_reason: Some("error"@),
        },
    }
}

/// What a text completion streams for an item.
pub open spec fn completion_event_of(item: Result<Seq<char>, Seq<char>>) -> StreamView {
    match item {
        Ok(data) => StreamView::Raw(data),
        Err(e) => StreamView::Raw(failure_text(e)),
    }
}

/// The text of an item.
pub open spec fn item_text(item: Result<String, String>) -> Result<Seq<char>, Seq<char>> {
    match item {
        Ok(s) => Ok(s@),
        Err(e) => Err(e@),
    }
}

fn failure(cause: &String) -> (s: String)
    ensures
        s@ == failure_text(cause@),
{
    let mut s = String::from_str("[Error: ");
    s.append(cause.as_str());
    s.append("]");
    s
}

/// What a chat streams for an item.
pub fn chat_event(item: Result<String, String>) -> (e: StreamEvent)
    ensures
        e@ == chat_event_of(item_text(item)),
{
    match item {
        Ok(data) => {
            if same_text(data.as_str(), "[DONE]") || strip_prefix(data.as_str(), "{").is_some() {
                StreamEvent::Raw(data)
            } else {
                StreamEvent::Chunk { content: data, finish_reason: None }
            }
        },
        Err(e) => StreamEvent::Chunk {
            content: failure(&e),
            finish_reason: Some(String::from_str("error")),
        },
    }
}

/// What a text completion streams for an item.
pub fn completion_event(item: Result<String, String>) -> (e: StreamEvent)
    ensures
        e@ == completion_event_of(item_text(item)),
{
    match item {
        Ok(data) => StreamEvent::Raw(data),
        Err(e) => StreamEvent::Raw(failure(&e)),
    }
}

} // verus!
