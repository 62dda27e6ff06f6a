//! The data carried on the wire: the patches that the completion service
//! streams back, and the messages that a request sends to it.

use vstd::prelude::*;

verus! {

/// The incremental message of one streamed choice.
#[derive(Debug)]
pub struct Message {
    pub content: Option<String>,
}

/// One alternative of a streamed patch.
#[derive(Debug)]
pub struct Choice {
    pub delta: Option<Message>,
}

/// The body of a structured error that the service reports.
#[derive(Debug)]
pub struct Error {
    pub message: String,
}

/// One parsed event of the stream: either a step of the answer or an error
/// reported by the service.
#[derive(Debug)]
pub enum StreamPatch {
    Success { choices: Vec<Choice> },
    Error { error: Error },
}

/// Who wrote a message of the conversation.
#[derive(Clone, Copy, Debug, PartialEq, Eq, Structural)]
pub enum RequestMessageRole {
    User,
    Assistant,
}

/// One message of the conversation as a request sends it.
pub struct RequestMessage<'a> {
    pub role: RequestMessageRole,
    pub content: &'a str,
}

pub struct MessageView {
    pub content: Option<Seq<char>>,
}

pub struct ChoiceView {
    pub delta: Option<MessageView>,
}

pub struct ErrorView {
    pub message: Seq<char>,
}

pub enum StreamPatchView {
    Success { choices: Seq<ChoiceView> },
    Error { error: ErrorView },
}

pub struct RequestMessageView {
    pub role: RequestMessageRole,
    pub content: Seq<char>,
}

impl View for Message {
    type V = MessageView;

    open spec fn view(&self) -> MessageView {
        MessageView {
            content: match self.content {
                Some(text) => Some(text@),
                None => None,
            },
        }
    }
}

impl View for Choice {
    type V = ChoiceView;

    open spec fn view(&self) -> ChoiceView {
        ChoiceView {
            delta: match self.delta {
                Some(message) => Some(message@),
                None => None,
            },
        }
    }
}

impl View for Error {
    type V = ErrorView;

    open spec fn view(&self) -> ErrorView {
        ErrorView { message: self.message@ }
    }
}

impl View for StreamPatch {
    type V = StreamPatchView;

    open spec fn view(&self) -> StreamPatchView {
        match self {
            StreamPatch::Success { choices } => StreamPatchView::Success {
                choices: choices@.map_values(|choice: Choice| choice@),
            },
            StreamPatch::Error { error } => StreamPatchView::Error { error: error@ },
        }
    }
}

impl<'a> View for RequestMessage<'a> {
    type V = RequestMessageView;

    open spec fn view(&self) -> RequestMessageView {
        RequestMessageView { role: self.role, content: self.content@ }
    }
}

impl ChoiceView {
    /// The text that the choice adds to the answer, if it adds any: absent
    /// when the choice has no delta or the delta has no content.
    pub open spec fn text(self) -> Option<Seq<char>> {
        match self.delta {
            Some(message) => message.content,
            None => None,
        }
    }
}

impl Choice {
    /// The text that the choice adds to the answer, if it adds any.
    pub fn text(&self) -> (text: Option<&str>)
        ensures
            match text {
                Some(content) => self@.text() == Some(content@),
                None => self@.text() is None,
            },
    {
        match &self.delta {
            Some(message) => match &message.content {
                Some(content) => Some(content.as_str()),
                None => None,
            },
            None => None,
        }
    }
}

/// The conversation as the service is to see it: who said what, in order.
pub open spec fn transcript(conversation: Seq<(RequestMessageRole, String)>) -> Seq<
    RequestMessageView,
> {
    conversation.map_values(
        |turn: (RequestMessageRole, String)| RequestMessageView { role: turn.0, content: turn.1@ },
    )
}

/// The message list of a request: one message for each turn of the
/// conversation, in the same order, with the same role and text.
pub fn request_messages<'a>(conversation: &'a Vec<(RequestMessageRole, String)>) -> (messages: Vec<
    RequestMessage<'a>,
>)
    ensures
        messages@.map_values(|message: RequestMessage<'a>| message@) == transcript(conversation@),
{
    let mut messages: Vec<RequestMessage<'a>> = Vec::new();
    let mut i: usize = 0;
    while i < conversation.len()
        invariant
            i <= conversation.len(),
            messages@.len() == i,
            forall|j: int|
                0 <= j < i ==> (#[trigger] messages@[j])@ == (RequestMessageView {
                    role: conversation@[j].0,
                    content: conversation@[j].1@,
                }),
        decreases conversation.len() - i,
    {
        let turn = &conversation[i];
        messages.push(RequestMessage { role: turn.0, content: turn.1.as_str() });
        i += 1;
    }
    assert(messages@.map_values(|message: RequestMessage<'a>| message@) =~= transcript(
        conversation@,
    ));
    messages
}

} // verus!
