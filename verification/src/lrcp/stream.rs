//! One session of the protocol, as its two ends see it.

use vstd::prelude::*;
use crate::lrcp::packet::{Message, MessageView, Position, Session};

verus! {

/// A session and how far it has got in each direction.
#[derive(Debug, PartialEq, Eq)]
pub struct Stream {
    pub session: Session,
    pub received: Position,
    pub sent: Position,
}

/// Why a stream has no answer to a message.
#[derive(Clone, Copy, Debug, PartialEq, Eq)]
pub enum StreamError {
    /// The message is none that a stream answers.
    Unexpected,
}

/// The session that a message belongs to.
pub open spec fn session_of(message: MessageView) -> Session {
    match message {
        MessageView::Connect(session) => session,
        MessageView::Data(data) => data.session,
        MessageView::Ack(session, _) => session,
        MessageView::Close(session) => session,
    }
}

/// The answer of a stream to a message that opens or closes its session,
/// or to an acknowledgement: opening is acknowledged from the start of
/// the stream, closing is answered in kind, and an acknowledgement has no
/// answer.
pub open spec fn answer(message: MessageView) -> Result<MessageView, StreamError> {
    match message {
        MessageView::Connect(session) => Ok(MessageView::Ack(session, 0)),
        MessageView::Close(session) => Ok(MessageView::Close(session)),
        _ => Err(StreamError::Unexpected),
    }
}

impl Stream {
    /// Answers a message of the stream's session that opens or closes it,
    /// or an acknowledgement: see [`answer`].
    pub fn receive(&mut self, message: Message) -> (res: Result<Message, StreamError>)
        requires
            !(message@ is Data),
            !(message@ is Ack) ==> session_of(message@) == old(self).session,
        ensures
            *final(self) == *old(self),
            match res {
                Ok(reply) => answer(message@) == Ok::<MessageView, StreamError>(reply@),
                Err(e) => answer(message@) == Err::<MessageView, StreamError>(e),
            },
    {
        match message {
            Message::Connect(session) => Ok(Message::Ack(session, 0)),
            Message::Close(session) => Ok(Message::Close(session)),
            _ => Err(StreamError::Unexpected),
        }
    }
}

} // verus!
