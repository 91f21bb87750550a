//! The chat message value and its mathematical view.

use vstd::prelude::*;

verus! {

/// The spec-level view of a [`Message`]: the two fields as character
/// sequences. A message has no identity beyond this content.
#[verifier::ext_equal]
pub struct MessageView {
    pub user: Seq<char>,
    pub message: Seq<char>,
}

/// One chat message: the display name of its sender and the text.
/// Immutable once constructed; it is moved or copied, never mutated.
#[derive(Debug)]
pub struct Message {
    pub user: String,
    pub message: String,
}

impl View for Message {
    type V = MessageView;

    open spec fn view(&self) -> MessageView {
        MessageView { user: self.user@, message: self.message@ }
    }
}

impl DeepView for Message {
    type V = MessageView;

    open spec fn deep_view(&self) -> MessageView {
        self.view()
    }
}

impl Message {
    /// Builds a message from a sender name and a text.
    pub fn new(user: String, msg: String) -> (r: Self)
        ensures
            r@ == (MessageView { user: user@, message: msg@ }),
    {
        Self { user, message: msg }
    }
}

impl Clone for Message {
    /// A clone carries the same content as the original.
    fn clone(&self) -> (r: Self)
        ensures
            r@ == self@,
    {
        Message { user: self.user.clone(), message: self.message.clone() }
    }
}

} // verus!
