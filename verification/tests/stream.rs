use protohackers::lrcp::packet::Message;
use protohackers::lrcp::stream::{Stream, StreamError};

#[test]
fn stream_acknowledges_connect_from_the_start() {
    let mut stream = Stream { session: 7, received: 0, sent: 0 };
    assert_eq!(Ok(Message::Ack(7, 0)), stream.receive(Message::Connect(7)));
    assert_eq!(Stream { session: 7, received: 0, sent: 0 }, stream);
}

#[test]
fn stream_answers_close_in_kind() {
    let mut stream = Stream { session: 7, received: 3, sent: 4 };
    assert_eq!(Ok(Message::Close(7)), stream.receive(Message::Close(7)));
}

#[test]
fn stream_has_no_answer_to_an_acknowledgement() {
    let mut stream = Stream { session: 7, received: 3, sent: 4 };
    assert_eq!(Err(StreamError::Unexpected), stream.receive(Message::Ack(7, 2)));
    assert_eq!(Err(StreamError::Unexpected), stream.receive(Message::Ack(8, 2)));
}
