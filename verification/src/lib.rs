//! Verified core of a chat-archive search tool: ingestion of exported
//! message files, a word-frequency index, and two search modes over the
//! resulting corpus.
use vstd::prelude::*;

pub mod decode;
pub mod engine;
pub mod index;
pub mod search;
pub mod text;

verus! {

/// A single chat message as it appears in an export file.
#[derive(Debug)]
pub struct Message {
    /// Unique identifier within the corpus.
    pub id: u64,
    /// Opaque timestamp text, preserved verbatim.
    pub timestamp: String,
    /// The message body; may be empty.
    pub contents: String,
    /// Opaque attachment reference, preserved verbatim.
    pub attachments: String,
}

/// The mathematical content of a message.
pub ghost struct MessageView {
    pub id: u64,
    pub timestamp: Seq<char>,
    pub contents: Seq<char>,
    pub attachments: Seq<char>,
}

impl View for Message {
    type V = MessageView;

    open spec fn view(&self) -> MessageView {
        MessageView {
            id: self.id,
            timestamp: self.timestamp@,
            contents: self.contents@,
            attachments: self.attachments@,
        }
    }
}

impl Clone for Message {
    /// An exact copy; search results hand out copies of matching messages.
    fn clone(&self) -> (r: Self)
        ensures
            r == *self,
    {
        Message {
            id: self.id,
            timestamp: self.timestamp.clone(),
            contents: self.contents.clone(),
            attachments: self.attachments.clone(),
        }
    }
}

} // verus!
