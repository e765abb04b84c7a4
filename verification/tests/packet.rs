use protohackers::lrcp::packet::{
    ack_message, close_message, connect_message, data_message, is_regular, parse_message,
    read_number, read_span, split_ranges, Data, Message, ParseError,
};
use std::collections::VecDeque;
use std::io::Read;

#[test]
fn test_parse_message_connect() {
    let message = b"/connect/12345/".to_vec();
    assert_eq!(Message::Connect(12345), parse_message(message).unwrap(),);
}

#[test]
fn test_parse_message_data() {
    let message = b"/data/12345/23/foobar/".to_vec();
    let data = Data {
        session: 12345,
        position: 23,
        source: message.clone(),
        ranges: VecDeque::from([15..21]),
        range_cursor: 0,
    };
    assert_eq!(Message::Data(data), parse_message(message).unwrap());
}

#[test]
fn test_parse_message_data_with_slashes() {
    let message = b"/data/12345/23/foo\\/bar\\\\baz/".to_vec();
    let data = Data {
        session: 12345,
        position: 23,
        source: message.clone(),
        ranges: VecDeque::from([15..18, 19..23, 24..28]),
        range_cursor: 0,
    };
    assert_eq!(Message::Data(data), parse_message(message).unwrap());
}

#[test]
fn test_parse_message_data_with_all_slashes() {
    let message = b"/data/12345/23/\\/\\/\\//".to_vec();
    let data = Data {
        session: 12345,
        position: 23,
        source: message.clone(),
        ranges: VecDeque::from([16..17, 18..19, 20..21]),
        range_cursor: 0,
    };
    assert_eq!(Message::Data(data), parse_message(message).unwrap());
}

#[test]
fn test_read_message_data() {
    let message = b"/data/12345/23/foo\\/bar\\\\baz/".to_vec();
    let mut data = Data {
        session: 12345,
        position: 23,
        source: message.clone(),
        ranges: VecDeque::from([15..18, 19..23, 24..28]),
        range_cursor: 0,
    };
    let mut buf: Vec<u8> = vec![];
    let n = data.read_to_end(&mut buf).unwrap();
    assert_eq!(n, 11);
    assert_eq!(b"foo/bar\\baz".to_vec(), buf);
}

#[test]
fn parse_message_ack_and_close() {
    assert_eq!(Ok(Message::Ack(12345, 7)), parse_message(b"/ack/12345/7/".to_vec()));
    assert_eq!(Ok(Message::Close(9)), parse_message(b"/close/9/".to_vec()));
}

#[test]
fn parse_message_rejects_what_has_no_shape() {
    assert_eq!(Err(ParseError::Invalid), parse_message(b"".to_vec()));
    assert_eq!(Err(ParseError::Invalid), parse_message(b"/connect/".to_vec()));
    assert_eq!(Err(ParseError::Invalid), parse_message(b"/hello/1/".to_vec()));
    assert_eq!(Err(ParseError::Invalid), parse_message(b"/connect/abc/".to_vec()));
}

#[test]
fn parse_message_rejects_numbers_that_do_not_fit() {
    assert_eq!(
        Ok(Message::Connect(u64::MAX)),
        parse_message(b"/connect/18446744073709551615/".to_vec())
    );
    assert_eq!(
        Err(ParseError::Overflow),
        parse_message(b"/connect/18446744073709551616/".to_vec())
    );
    assert_eq!(
        Err(ParseError::Overflow),
        parse_message(b"/close/99999999999999999999999999/".to_vec())
    );
}

#[test]
fn parse_message_tries_connect_first() {
    assert_eq!(
        Ok(Message::Connect(2)),
        parse_message(b"/close/1/connect/2/".to_vec())
    );
}

#[test]
fn parse_message_keeps_a_leading_escape_when_it_is_the_only_one() {
    let message = b"/data/1/0/\\/ab/".to_vec();
    let data = Data {
        session: 1,
        position: 0,
        source: message.clone(),
        ranges: VecDeque::from([10..14]),
        range_cursor: 0,
    };
    assert_eq!(Ok(Message::Data(data)), parse_message(message));
}

#[test]
fn read_number_reads_digits_only() {
    let data = b"x123y";
    assert_eq!(Ok(123), read_number(data, &vec![None, Some((1, 4))], 1, u64::MAX));
    assert_eq!(Ok(12), read_number(data, &vec![None, Some((1, 3))], 1, u64::MAX));
    assert_eq!(
        Err(ParseError::Invalid),
        read_number(data, &vec![None, Some((0, 4))], 1, u64::MAX)
    );
    assert_eq!(
        Err(ParseError::Invalid),
        read_number(data, &vec![None, Some((1, 1))], 1, u64::MAX)
    );
    assert_eq!(Err(ParseError::Invalid), read_number(data, &vec![None, None], 1, u64::MAX));
    assert_eq!(Err(ParseError::Invalid), read_number(data, &vec![None], 1, u64::MAX));
    assert_eq!(
        Err(ParseError::Invalid),
        read_number(data, &vec![None, Some((3, 9))], 1, u64::MAX)
    );
    assert_eq!(Err(ParseError::Overflow), read_number(data, &vec![None, Some((1, 4))], 1, 122));
    assert_eq!(Ok(123), read_number(data, &vec![None, Some((1, 4))], 1, 123));
}

#[test]
fn read_span_checks_the_bounds() {
    let data = b"abcdef";
    assert_eq!(Some((2, 4)), read_span(data, &vec![Some((2, 4))], 0));
    assert_eq!(Some((6, 6)), read_span(data, &vec![Some((6, 6))], 0));
    assert_eq!(None, read_span(data, &vec![Some((4, 2))], 0));
    assert_eq!(None, read_span(data, &vec![Some((2, 7))], 0));
    assert_eq!(None, read_span(data, &vec![None], 0));
    assert_eq!(None, read_span(data, &vec![Some((2, 4))], 1));
}

#[test]
fn messages_from_groups() {
    let data = b"/ack/12/34/";
    let groups = vec![Some((0, 10)), Some((5, 7)), Some((8, 10))];
    assert_eq!(Ok(Message::Ack(12, 34)), ack_message(data, &groups));
    assert_eq!(Ok(Message::Connect(12)), connect_message(data, &groups));
    assert_eq!(Ok(Message::Close(12)), close_message(data, &groups));
    assert_eq!(
        Err(ParseError::Invalid),
        ack_message(data, &vec![Some((0, 10)), Some((5, 7))])
    );
}

#[test]
fn split_ranges_cuts_at_each_escape() {
    assert_eq!(VecDeque::from([15..21]), split_ranges(15, 21, &vec![]));
    assert_eq!(
        VecDeque::from([15..18, 19..23, 24..28]),
        split_ranges(15, 28, &vec![3, 8])
    );
    assert_eq!(
        VecDeque::from([16..17, 18..19, 20..21]),
        split_ranges(15, 21, &vec![0, 2, 4])
    );
    assert_eq!(VecDeque::from([15..21]), split_ranges(15, 21, &vec![0]));
    assert_eq!(VecDeque::from([15..19, 20..21]), split_ranges(15, 21, &vec![4]));
}

#[test]
fn is_regular_wants_rising_offsets_within_the_data() {
    assert!(is_regular(&vec![], 0));
    assert!(is_regular(&vec![0, 2, 4], 6));
    assert!(!is_regular(&vec![0, 2, 6], 6));
    assert!(!is_regular(&vec![2, 2], 6));
    assert!(!is_regular(&vec![3, 1], 6));
}

#[test]
fn data_message_refuses_offsets_that_are_not_regular() {
    let source = b"/data/1/0/abcd/".to_vec();
    assert_eq!(
        Err(ParseError::Invalid),
        data_message(source.clone(), 1, 0, 10, 14, Some(vec![2, 1]))
    );
    assert_eq!(
        Err(ParseError::Invalid),
        data_message(source.clone(), 1, 0, 10, 14, Some(vec![4]))
    );
    assert_eq!(Err(ParseError::Invalid), data_message(source.clone(), 1, 0, 10, 14, None));
    let data = Data {
        session: 1,
        position: 0,
        source: source.clone(),
        ranges: VecDeque::from([10..12, 13..14]),
        range_cursor: 0,
    };
    assert_eq!(Ok(Message::Data(data)), data_message(source, 1, 0, 10, 14, Some(vec![2])));
}

#[test]
fn read_fills_small_buffers_in_turn() {
    let message = b"/data/12345/23/foo\\/bar\\\\baz/".to_vec();
    let mut data = Data {
        session: 12345,
        position: 23,
        source: message,
        ranges: VecDeque::from([15..18, 19..23, 24..28]),
        range_cursor: 0,
    };
    let mut buf = [0u8; 4];
    assert_eq!(4, data.read(&mut buf).unwrap());
    assert_eq!(b"foo/", &buf);
    assert_eq!(4, data.read(&mut buf).unwrap());
    assert_eq!(b"bar\\", &buf);
    assert_eq!(3, data.read(&mut buf).unwrap());
    assert_eq!(b"baz\\", &buf);
    assert_eq!(0, data.read(&mut buf).unwrap());
    let mut none: [u8; 0] = [];
    assert_eq!(0, data.read(&mut none).unwrap());
}

#[test]
fn read_skips_ranges_outside_the_source() {
    let mut data = Data {
        session: 1,
        position: 0,
        source: b"abcdef".to_vec(),
        ranges: VecDeque::from([4..2, 1..3, 5..9, 5..6]),
        range_cursor: 0,
    };
    let mut buf = [0u8; 8];
    assert_eq!(3, data.read(&mut buf).unwrap());
    assert_eq!(b"bcf", &buf[..3]);
}
