//! The messages of the protocol and how a datagram is read as one. The
//! shape of each message is a regular expression; what the expression
//! matched is then taken apart here.

use vstd::prelude::*;
use vstd::slice::slice_subrange;
use std::collections::VecDeque;
use std::ops::Range;

verus! {

/// The number of a session.
pub type Session = u64;

/// A position in the stream of a session, in bytes.
pub type Position = usize;

/// The shape of a message that opens a session.
pub const CONNECT: &'static str = r"/connect/(?P<session>\d+)/";

/// The shape of a message that closes a session.
pub const CLOSE: &'static str = r"/close/(?P<session>\d+)/";

/// The shape of a message that carries data.
pub const DATA: &'static str = r"/data/(?P<session>\d+)/(?P<position>\d+)/(?P<data>.*)/";

/// The shape of a message that acknowledges data.
pub const ACK: &'static str = r"/ack/(?P<session>\d+)/(?P<position>\d+)";

/// The shape of an escaped backslash or slash in data.
pub const SLASHES: &'static str = r"\\(?:\\|/)";

/// Where a group of a regular expression matched: the offsets of its
/// first byte and of the byte after its last; none where the group took no
/// part in the match.
pub type Span = Option<(usize, usize)>;

/// What `regex::bytes::Regex::captures` finds for a pattern in a haystack:
/// the spans of all groups of the first match, the whole match first, or
/// nothing where the pattern does not match or is no regular expression.
pub uninterp spec fn captured(pattern: Seq<char>, haystack: Seq<u8>) -> Option<Seq<Span>>;

/// Where `regex::bytes::Regex::find_iter` finds a pattern in a haystack:
/// the offset of the first byte of each match, in the order in which the
/// matches are found, or nothing where the pattern is no regular
/// expression.
pub uninterp spec fn found(pattern: Seq<char>, haystack: Seq<u8>) -> Option<Seq<usize>>;

/// Compiles `pattern` with `regex::bytes::Regex::new` and searches
/// `haystack` with `Regex::captures`. The result is [`captured`] of the
/// two: the same pattern and haystack always give the same spans.
#[verifier::external_body]
pub(crate) fn capture(pattern: &str, haystack: &[u8]) -> (res: Option<Vec<Span>>)
    ensures
        match res {
            Some(groups) => captured(pattern@, haystack@) == Some(groups@),
            None => captured(pattern@, haystack@) is None,
        },
{
    let re = regex::bytes::Regex::new(pattern).ok()?;
    let caps = re.captures(haystack)?;
    Some(caps.iter().map(|m| m.map(|m| (m.start(), m.end()))).collect())
}

/// Compiles `pattern` with `regex::bytes::Regex::new` and walks the
/// matches in `haystack` with `Regex::find_iter`. The result is [`found`]
/// of the two: the same pattern and haystack always give the same
/// offsets.
#[verifier::external_body]
pub(crate) fn find_starts(pattern: &str, haystack: &[u8]) -> (res: Option<Vec<usize>>)
    ensures
        match res {
            Some(starts) => found(pattern@, haystack@) == Some(starts@),
            None => found(pattern@, haystack@) is None,
        },
{
    let re = regex::bytes::Regex::new(pattern).ok()?;
    Some(re.find_iter(haystack).map(|m| m.start()).collect())
}

/// Why a datagram is no message.
#[derive(Clone, Copy, Debug, PartialEq, Eq)]
pub enum ParseError {
    /// It has the shape of no message.
    Invalid,
    /// One of its numbers is too large.
    Overflow,
}

/// Whether a byte is a decimal digit.
pub open spec fn is_digit(b: u8) -> bool {
    0x30 <= b <= 0x39
}

/// Whether `text` is a decimal numeral: one digit or more.
pub open spec fn is_numeral(text: Seq<u8>) -> bool {
    text.len() > 0 && forall|i: int| 0 <= i < text.len() ==> is_digit(#[trigger] text[i])
}

/// The number that a decimal numeral stands for.
pub open spec fn number(text: Seq<u8>) -> nat
    decreases text.len(),
{
    if text.len() == 0 {
        0
    } else {
        (number(text.drop_last()) * 10 + (text.last() - 0x30)) as nat
    }
}

/// The bytes of `data` that the group `index` matched, where that group
/// took part in the match and its span lies within `data`.
pub open spec fn field(data: Seq<u8>, groups: Seq<Span>, index: int) -> Option<Seq<u8>> {
    if 0 <= index < groups.len() {
        match groups[index] {
            Some((from, to)) => if from <= to <= data.len() {
                Some(data.subrange(from as int, to as int))
            } else {
                None
            },
            None => None,
        }
    } else {
        None
    }
}

/// The number, at most `max`, that the group `index` matched: there is
/// none where the group did not match a numeral, and a numeral above
/// `max` is an overflow.
pub open spec fn number_field(data: Seq<u8>, groups: Seq<Span>, index: int, max: u64) -> Result<
    u64,
    ParseError,
> {
    match field(data, groups, index) {
        Some(text) => if !is_numeral(text) {
            Err(ParseError::Invalid)
        } else if number(text) > max {
            Err(ParseError::Overflow)
        } else {
            Ok(number(text) as u64)
        },
        None => Err(ParseError::Invalid),
    }
}

/// A longer numeral stands for a number at least as large as any of its
/// beginnings does.
pub proof fn lemma_number_grows(text: Seq<u8>, i: int)
    requires
        0 <= i <= text.len(),
        is_numeral(text),
    ensures
        number(text.subrange(0, i)) <= number(text),
    decreases text.len() - i,
{
    if i < text.len() {
        lemma_number_grows(text, i + 1);
        assert(text.subrange(0, i + 1).drop_last() =~= text.subrange(0, i));
        assert(is_digit(text[i]));
        assert(text.subrange(0, i + 1).last() == text[i]);
    } else {
        assert(text.subrange(0, i) =~= text);
    }
}

/// Reads the number, at most `max`, that the group `index` matched: see
/// [`number_field`].
pub fn read_number(data: &[u8], groups: &Vec<Span>, index: usize, max: u64) -> (res: Result<
    u64,
    ParseError,
>)
    ensures
        res == number_field(data@, groups@, index as int, max),
{
    if index >= groups.len() {
        return Err(ParseError::Invalid);
    }
    let (from, to) = match groups[index] {
        Some(span) => span,
        None => {
            return Err(ParseError::Invalid);
        },
    };
    if from > to || to > data.len() || from == to {
        return Err(ParseError::Invalid);
    }
    let ghost text = data@.subrange(from as int, to as int);
    let mut i: usize = from;
    while i < to
        invariant
            from <= i <= to <= data.len(),
            text == data@.subrange(from as int, to as int),
            field(data@, groups@, index as int) == Some(text),
            forall|j: int| 0 <= j < i - from ==> is_digit(#[trigger] text[j]),
        decreases to - i,
    {
        assert(text[i - from] == data[i as int]);
        if data[i] < 0x30 || data[i] > 0x39 {
            assert(!is_digit(text[i - from]));
            return Err(ParseError::Invalid);
        }
        i += 1;
    }
    let mut value: u64 = 0;
    i = from;
    assert(text.subrange(0, 0) =~= Seq::<u8>::empty());
    while i < to
        invariant
            from <= i <= to <= data.len(),
            text == data@.subrange(from as int, to as int),
            field(data@, groups@, index as int) == Some(text),
            is_numeral(text),
            value == number(text.subrange(0, i - from)),
            value <= max,
        decreases to - i,
    {
        proof {
            assert(text[i - from] == data[i as int]);
            assert(is_digit(text[i - from]));
            assert(text.subrange(0, i + 1 - from).drop_last() =~= text.subrange(0, i - from));
            assert(text.subrange(0, i + 1 - from).last() == data[i as int]);
            lemma_number_grows(text, i + 1 - from);
        }
        let digit: u64 = (data[i] - 0x30) as u64;
        if value > max / 10 {
            return Err(ParseError::Overflow);
        }
        let tens: u64 = value * 10;
        if digit > max - tens {
            return Err(ParseError::Overflow);
        }
        value = tens + digit;
        i += 1;
    }
    assert(text.subrange(0, to - from) =~= text);
    Ok(value)
}

/// The span of the group `index`, where that group took part in the match
/// and its span lies within `data`.
pub open spec fn span_field(data: Seq<u8>, groups: Seq<Span>, index: int) -> Span {
    if 0 <= index < groups.len() {
        match groups[index] {
            Some((from, to)) => if from <= to <= data.len() {
                Some((from, to))
            } else {
                None
            },
            None => None,
        }
    } else {
        None
    }
}

/// Reads the span of the group `index`: see [`span_field`].
pub fn read_span(data: &[u8], groups: &Vec<Span>, index: usize) -> (res: Span)
    ensures
        res == span_field(data@, groups@, index as int),
{
    if index >= groups.len() {
        return None;
    }
    match groups[index] {
        Some((from, to)) => if from <= to && to <= data.len() {
            Some((from, to))
        } else {
            None
        },
        None => None,
    }
}

/// The data of a message: the datagram it came in, and where in it the
/// data stands. Data is sent with each slash and backslash of it escaped
/// by a backslash; `ranges` are the stretches of `source` that remain when
/// the escaping backslashes are left out.
#[derive(Debug, PartialEq, Eq)]
pub struct Data {
    pub session: Session,
    pub position: Position,
    pub source: Vec<u8>,
    pub ranges: VecDeque<Range<Position>>,
    pub range_cursor: Position,
}

/// A message of the protocol.
#[derive(Debug, PartialEq, Eq)]
pub enum Message {
    Connect(Session),
    Data(Data),
    Ack(Session, Position),
    Close(Session),
}

/// A stretch of bytes: the offsets of its first byte and of the byte after
/// its last.
pub type Stretch = (int, int);

/// What a [`Data`] holds.
pub struct DataView {
    pub session: Session,
    pub position: Position,
    pub source: Seq<u8>,
    pub ranges: Seq<Stretch>,
    pub range_cursor: Position,
}

/// What a [`Message`] says.
pub enum MessageView {
    Connect(Session),
    Data(DataView),
    Ack(Session, Position),
    Close(Session),
}

/// Ranges as stretches.
pub open spec fn stretches(ranges: Seq<Range<Position>>) -> Seq<Stretch> {
    Seq::new(ranges.len(), |i: int| (ranges[i].start as int, ranges[i].end as int))
}

impl View for Data {
    type V = DataView;

    open spec fn view(&self) -> DataView {
        DataView {
            session: self.session,
            position: self.position,
            source: self.source@,
            ranges: stretches(self.ranges@),
            range_cursor: self.range_cursor,
        }
    }
}

impl View for Message {
    type V = MessageView;

    open spec fn view(&self) -> MessageView {
        match self {
            Message::Connect(session) => MessageView::Connect(*session),
            Message::Data(data) => MessageView::Data(data@),
            Message::Ack(session, position) => MessageView::Ack(*session, *position),
            Message::Close(session) => MessageView::Close(*session),
        }
    }
}

/// Whether `found` is the message that `expected` describes, or both are
/// the same error.
pub open spec fn is_message(
    found: Result<Message, ParseError>,
    expected: Result<MessageView, ParseError>,
) -> bool {
    match found {
        Ok(message) => expected == Ok::<MessageView, ParseError>(message@),
        Err(e) => expected == Err::<MessageView, ParseError>(e),
    }
}

/// Whether the offsets at which escapes were found are in strictly rising
/// order and all lie within data of `len` bytes.
pub open spec fn regular(starts: Seq<usize>, len: int) -> bool {
    &&& forall|i: int| 0 <= i < starts.len() ==> #[trigger] starts[i] < len
    &&& forall|i: int, j: int| 0 <= i < j < starts.len() ==> starts[i] < starts[j]
}

/// The stretches that end at an escape. Data that begins at `start` has
/// escapes at the offsets `starts`, counted from `start`; the stretch
/// before the first of them begins at `offset`. Each escape ends a stretch
/// just before its backslash, and the next stretch begins just after the
/// backslash. An escape at the very beginning of the data ends no stretch.
pub open spec fn cuts(start: int, offset: int, starts: Seq<usize>) -> Seq<Stretch>
    decreases starts.len(),
{
    if starts.len() == 0 {
        Seq::empty()
    } else {
        let at = starts[0] as int;
        let rest = cuts(start, at + 1, starts.skip(1));
        if at == 0 && offset == 0 {
            rest
        } else {
            seq![(start + offset, start + at)] + rest
        }
    }
}

/// The stretches of the data from `start` to `stop` that has escapes at
/// the offsets `starts`: those that end at an escape, and then what
/// follows the last backslash. Where no stretch ends at an escape, the
/// whole data is one stretch.
pub open spec fn ranges_of(start: int, stop: int, starts: Seq<usize>) -> Seq<Stretch> {
    let before = cuts(start, 0, starts);
    if before.len() == 0 {
        seq![(start, stop)]
    } else if before.last().1 < stop {
        before.push((before.last().1 + 1, stop))
    } else {
        before
    }
}

/// Whether `starts` is regular for data of `len` bytes: see [`regular`].
pub fn is_regular(starts: &Vec<usize>, len: usize) -> (res: bool)
    ensures
        res == regular(starts@, len as int),
{
    let mut i: usize = 0;
    while i < starts.len()
        invariant
            i <= starts.len(),
            forall|k: int| 0 <= k < i ==> #[trigger] starts[k] < len,
            forall|k: int| 0 < k < i ==> starts[k - 1] < #[trigger] starts[k],
        decreases starts.len() - i,
    {
        if starts[i] >= len {
            return false;
        }
        if i > 0 && starts[i - 1] >= starts[i] {
            assert(!(starts[i - 1] < starts[i as int]));
            return false;
        }
        i += 1;
    }
    proof {
        assert forall|a: int, b: int| 0 <= a < b < starts.len() implies starts[a] < starts[b] by {
            lemma_steps_rise(starts@, a, b);
        }
    }
    true
}

/// Offsets of which each is above the one before it are in strictly
/// rising order.
pub proof fn lemma_steps_rise(starts: Seq<usize>, a: int, b: int)
    requires
        forall|k: int| 0 < k < starts.len() ==> starts[k - 1] < #[trigger] starts[k],
        0 <= a < b < starts.len(),
    ensures
        starts[a] < starts[b],
    decreases b - a,
{
    if a + 1 < b {
        lemma_steps_rise(starts, a, b - 1);
    }
}

/// Cuts the data from `start` to `stop` into its stretches at the escapes
/// found at `starts`: see [`ranges_of`]. Every stretch lies within the
/// data.
pub fn split_ranges(start: usize, stop: usize, starts: &Vec<usize>) -> (ranges: VecDeque<
    Range<Position>,
>)
    requires
        start <= stop,
        regular(starts@, stop - start),
    ensures
        stretches(ranges@) == ranges_of(start as int, stop as int, starts@),
        forall|i: int|
            0 <= i < ranges@.len() ==> start <= (#[trigger] ranges@[i]).start <= ranges@[i].end
                <= stop,
{
    let mut ranges: VecDeque<Range<Position>> = VecDeque::new();
    let mut offset: usize = 0;
    let mut i: usize = 0;
    let ghost whole = cuts(start as int, 0, starts@);
    assert(starts@.skip(0) =~= starts@);
    assert(stretches(ranges@) =~= Seq::<Stretch>::empty());
    while i < starts.len()
        invariant
            i <= starts.len(),
            start <= stop,
            regular(starts@, stop - start),
            whole == cuts(start as int, 0, starts@),
            offset <= stop - start,
            i > 0 ==> offset == starts[i - 1] + 1,
            i == 0 ==> offset == 0,
            i > 0 && i < starts.len() ==> starts[i - 1] < starts[i as int],
            stretches(ranges@) + cuts(start as int, offset as int, starts@.skip(i as int)) == whole,
            forall|k: int|
                0 <= k < ranges@.len() ==> start <= (#[trigger] ranges@[k]).start <= ranges@[k].end
                    <= stop,
            ranges@.len() > 0 ==> i > 0 && ranges@[ranges@.len() - 1].end == start + starts[i
                - 1],
        decreases starts.len() - i,
    {
        let at = starts[i];
        let ghost before = stretches(ranges@);
        let ghost tail = starts@.skip(i as int);
        proof {
            assert(tail[0] == at);
            assert(tail.skip(1) =~= starts@.skip(i + 1));
            if i + 1 < starts.len() {
                assert(starts[i as int] < starts[i + 1]);
            }
        }
        if !(at == 0 && offset == 0) {
            ranges.push_back((start + offset)..(start + at));
            assert(stretches(ranges@) =~= before.push((start + offset, start + at)));
            assert(before.push((start + offset, start + at)) + cuts(
                start as int,
                at + 1,
                starts@.skip(i + 1),
            ) =~= before + (seq![(start + offset, start + at)] + cuts(
                start as int,
                at + 1,
                starts@.skip(i + 1),
            )));
        }
        offset = at + 1;
        i += 1;
    }
    proof {
        assert(starts@.skip(starts.len() as int) =~= Seq::<usize>::empty());
        assert(cuts(start as int, offset as int, starts@.skip(i as int)) =~= Seq::<
            Stretch,
        >::empty());
        assert(stretches(ranges@) =~= whole);
    }
    let n = ranges.len();
    if n == 0 {
        ranges.push_back(start..stop);
        assert(stretches(ranges@) =~= seq![(start as int, stop as int)]);
    } else {
        let last_end = ranges[n - 1].end;
        assert(whole.last().1 == last_end);
        if last_end < stop {
            ranges.push_back((last_end + 1)..stop);
            assert(stretches(ranges@) =~= whole.push((last_end + 1, stop as int)));
        }
    }
    ranges
}

/// The message that `make` builds from a number that was read, or the
/// error with which reading it failed.
pub open spec fn with_number(
    number: Result<u64, ParseError>,
    make: spec_fn(u64) -> Result<MessageView, ParseError>,
) -> Result<MessageView, ParseError> {
    match number {
        Ok(n) => make(n),
        Err(e) => Err(e),
    }
}

/// The message that opens a session, from what [`CONNECT`] matched: the
/// first group is the session.
pub open spec fn connect_of(data: Seq<u8>, groups: Seq<Span>) -> Result<MessageView, ParseError> {
    with_number(
        number_field(data, groups, 1, u64::MAX),
        |session: u64| Ok(MessageView::Connect(session)),
    )
}

/// The message that closes a session, from what [`CLOSE`] matched: the
/// first group is the session.
pub open spec fn close_of(data: Seq<u8>, groups: Seq<Span>) -> Result<MessageView, ParseError> {
    with_number(
        number_field(data, groups, 1, u64::MAX),
        |session: u64| Ok(MessageView::Close(session)),
    )
}

/// The message that acknowledges data, from what [`ACK`] matched: the
/// first group is the session, the second the position.
pub open spec fn ack_of(data: Seq<u8>, groups: Seq<Span>) -> Result<MessageView, ParseError> {
    with_number(
        number_field(data, groups, 1, u64::MAX),
        |session: u64|
            with_number(
                number_field(data, groups, 2, usize::MAX as u64),
                |position: u64| Ok(MessageView::Ack(session, position as usize)),
            ),
    )
}

/// The message that carries the data from `from` to `to` of `data`, in
/// which escapes were found at `starts`. It is none where the search for
/// escapes failed or gave offsets that are not regular.
pub open spec fn data_with(
    data: Seq<u8>,
    session: Session,
    position: Position,
    from: usize,
    to: usize,
    starts: Option<Seq<usize>>,
) -> Result<MessageView, ParseError> {
    match starts {
        Some(starts) => if regular(starts, to - from) {
            Ok(
                MessageView::Data(
                    DataView {
                        session,
                        position,
                        source: data,
                        ranges: ranges_of(from as int, to as int, starts),
                        range_cursor: 0,
                    },
                ),
            )
        } else {
            Err(ParseError::Invalid)
        },
        None => Err(ParseError::Invalid),
    }
}

/// The message that carries data, from what [`DATA`] matched: the first
/// group is the session, the second the position, the third the data, in
/// which the escapes are those that [`SLASHES`] finds.
pub open spec fn data_of(data: Seq<u8>, groups: Seq<Span>) -> Result<MessageView, ParseError> {
    with_number(
        number_field(data, groups, 1, u64::MAX),
        |session: u64|
            with_number(
                number_field(data, groups, 2, usize::MAX as u64),
                |position: u64|
                    match span_field(data, groups, 3) {
                        Some((from, to)) => data_with(
                            data,
                            session,
                            position as usize,
                            from,
                            to,
                            found(SLASHES@, data.subrange(from as int, to as int)),
                        ),
                        None => Err(ParseError::Invalid),
                    },
            ),
    )
}

/// The message that a datagram is read as. The shapes are tried in this
/// order: opening a session, data, acknowledgement, closing a session.
/// The first that is found anywhere in the datagram decides.
pub open spec fn parsed(data: Seq<u8>) -> Result<MessageView, ParseError> {
    match captured(CONNECT@, data) {
        Some(groups) => connect_of(data, groups),
        None => match captured(DATA@, data) {
            Some(groups) => data_of(data, groups),
            None => match captured(ACK@, data) {
                Some(groups) => ack_of(data, groups),
                None => match captured(CLOSE@, data) {
                    Some(groups) => close_of(data, groups),
                    None => Err(ParseError::Invalid),
                },
            },
        },
    }
}

/// Builds the message that opens a session: see [`connect_of`].
pub fn connect_message(data: &[u8], groups: &Vec<Span>) -> (res: Result<Message, ParseError>)
    ensures
        is_message(res, connect_of(data@, groups@)),
{
    match read_number(data, groups, 1, u64::MAX) {
        Ok(session) => Ok(Message::Connect(session)),
        Err(e) => Err(e),
    }
}

/// Builds the message that closes a session: see [`close_of`].
pub fn close_message(data: &[u8], groups: &Vec<Span>) -> (res: Result<Message, ParseError>)
    ensures
        is_message(res, close_of(data@, groups@)),
{
    match read_number(data, groups, 1, u64::MAX) {
        Ok(session) => Ok(Message::Close(session)),
        Err(e) => Err(e),
    }
}

/// Builds the message that acknowledges data: see [`ack_of`].
pub fn ack_message(data: &[u8], groups: &Vec<Span>) -> (res: Result<Message, ParseError>)
    ensures
        is_message(res, ack_of(data@, groups@)),
{
    let session = match read_number(data, groups, 1, u64::MAX) {
        Ok(session) => session,
        Err(e) => {
            return Err(e);
        },
    };
    match read_number(data, groups, 2, usize::MAX as u64) {
        Ok(position) => Ok(Message::Ack(session, position as usize)),
        Err(e) => Err(e),
    }
}

/// Builds the message that carries the data from `from` to `to` of `data`,
/// given where the escapes in it were found: see [`data_with`].
pub fn data_message(
    data: Vec<u8>,
    session: Session,
    position: Position,
    from: usize,
    to: usize,
    starts: Option<Vec<usize>>,
) -> (res: Result<Message, ParseError>)
    requires
        from <= to <= data.len(),
    ensures
        is_message(
            res,
            data_with(
                data@,
                session,
                position,
                from,
                to,
                match starts {
                    Some(starts) => Some(starts@),
                    None => None,
                },
            ),
        ),
{
    match starts {
        Some(starts) => {
            if !is_regular(&starts, to - from) {
                return Err(ParseError::Invalid);
            }
            let ranges = split_ranges(from, to, &starts);
            Ok(Message::Data(Data { session, position, source: data, ranges, range_cursor: 0 }))
        },
        None => Err(ParseError::Invalid),
    }
}

/// Reads a datagram as a message: see [`parsed`].
pub fn parse_message(data: Vec<u8>) -> (res: Result<Message, ParseError>)
    ensures
        is_message(res, parsed(data@)),
{
    if let Some(groups) = capture(CONNECT, data.as_slice()) {
        return connect_message(data.as_slice(), &groups);
    }
    if let Some(groups) = capture(DATA, data.as_slice()) {
        let session = match read_number(data.as_slice(), &groups, 1, u64::MAX) {
            Ok(session) => session,
            Err(e) => {
                return Err(e);
            },
        };
        let position = match read_number(data.as_slice(), &groups, 2, usize::MAX as u64) {
            Ok(position) => position as usize,
            Err(e) => {
                return Err(e);
            },
        };
        let (from, to) = match read_span(data.as_slice(), &groups, 3) {
            Some(span) => span,
            None => {
                return Err(ParseError::Invalid);
            },
        };
        let starts = find_starts(SLASHES, slice_subrange(data.as_slice(), from, to));
        return data_message(data, session, position, from, to, starts);
    }
    if let Some(groups) = capture(ACK, data.as_slice()) {
        return ack_message(data.as_slice(), &groups);
    }
    if let Some(groups) = capture(CLOSE, data.as_slice()) {
        return close_message(data.as_slice(), &groups);
    }
    Err(ParseError::Invalid)
}

/// The bytes of `source` in a stretch; none where the stretch does not lie
/// within `source`.
pub open spec fn piece(source: Seq<u8>, stretch: Stretch) -> Seq<u8> {
    if 0 <= stretch.0 <= stretch.1 <= source.len() {
        source.subrange(stretch.0, stretch.1)
    } else {
        Seq::empty()
    }
}

/// The bytes of `source` in the stretches of `ranges`, one after the
/// other.
pub open spec fn payload(source: Seq<u8>, ranges: Seq<Stretch>) -> Seq<u8>
    decreases ranges.len(),
{
    if ranges.len() == 0 {
        Seq::empty()
    } else {
        piece(source, ranges[0]) + payload(source, ranges.skip(1))
    }
}

impl DataView {
    /// The data that has not been read yet: what the stretches hold,
    /// without the first `range_cursor` bytes of the first stretch.
    pub open spec fn unread(self) -> Seq<u8> {
        if self.ranges.len() == 0 {
            Seq::empty()
        } else {
            let first = piece(self.source, self.ranges[0]);
            let done = if self.range_cursor <= first.len() {
                self.range_cursor as int
            } else {
                first.len() as int
            };
            first.skip(done) + payload(self.source, self.ranges.skip(1))
        }
    }
}

/// The error type of `std::io`.
#[verifier::external_type_specification]
#[verifier::external_body]
pub struct ExIoError(std::io::Error);

/// Whether a buffer that held `before` holds `after` once `n` bytes of
/// `unread` were read into it: its first `n` bytes are the first `n` bytes
/// of `unread`, the rest of it is as it was, and `n` is the room in the
/// buffer, or the length of `unread` if that is less.
pub open spec fn read_into(unread: Seq<u8>, before: Seq<u8>, after: Seq<u8>, n: int) -> bool {
    &&& 0 <= n <= before.len()
    &&& n <= unread.len()
    &&& (n == before.len() || n == unread.len())
    &&& after.len() == before.len()
    &&& after.subrange(0, n) == unread.subrange(0, n)
    &&& after.subrange(n, before.len() as int) == before.subrange(n, before.len() as int)
}

impl std::io::Read for Data {
    /// Reads data into `buf`, with the escaping backslashes left out: as
    /// many bytes as `buf` has room for, or all that is left if that is
    /// less. What was read is not read again. Reading never fails, and
    /// gives the number of bytes read.
    fn read(&mut self, buf: &mut [u8]) -> (res: Result<usize, std::io::Error>)
        ensures
            res is Ok,
            read_into(old(self)@.unread(), old(buf)@, final(buf)@, res->Ok_0 as int),
            final(self)@.unread() == old(self)@.unread().skip(res->Ok_0 as int),
            final(self).session == old(self).session,
            final(self).position == old(self).position,
            final(self).source == old(self).source,
    {
        let ghost all = self@.unread();
        let mut n: usize = 0;
        assert(all.skip(0) =~= all);
        while n < buf.len() && self.ranges.len() > 0
            invariant
                n <= buf@.len() == old(buf)@.len(),
                n <= all.len(),
                all == old(self)@.unread(),
                self@.unread() == all.skip(n as int),
                buf@.subrange(0, n as int) == all.subrange(0, n as int),
                buf@.subrange(n as int, buf@.len() as int) == old(buf)@.subrange(
                    n as int,
                    buf@.len() as int,
                ),
                self.session == old(self).session,
                self.position == old(self).position,
                self.source == old(self).source,
            decreases
                    self.ranges@.len(),
                    if self.range_cursor <= piece(self.source@, stretches(self.ranges@)[0]).len() {
                        piece(self.source@, stretches(self.ranges@)[0]).len() - self.range_cursor
                    } else {
                        0
                    },
        {
            let from = self.ranges[0].start;
            let to = self.ranges[0].end;
            let ghost first = piece(self.source@, stretches(self.ranges@)[0]);
            let ghost rest = payload(self.source@, stretches(self.ranges@).skip(1));
            let ghost before = buf@;
            let ghost prior = stretches(self.ranges@);
            let ghost size = buf@.len() as int;
            let len = if from <= to && to <= self.source.len() {
                to - from
            } else {
                0
            };
            assert(len == first.len());
            if self.range_cursor >= len {
                self.ranges.pop_front();
                self.range_cursor = 0;
                proof {
                    let now = stretches(self.ranges@);
                    assert(now =~= prior.skip(1));
                    assert(first.skip(first.len() as int) =~= Seq::<u8>::empty());
                    assert(all.skip(n as int) =~= rest);
                    if now.len() > 0 {
                        assert(piece(self.source@, now[0]).skip(0) =~= piece(self.source@, now[0]));
                    }
                    assert(self@.unread() =~= payload(self.source@, now));
                }
            } else {
                let at = self.range_cursor;
                let byte = self.source[from + at];
                buf[n] = byte;
                self.range_cursor = at + 1;
                n += 1;
                proof {
                    assert(first[at as int] == byte);
                    assert(first.skip(at as int) =~= seq![byte] + first.skip(at + 1));
                    assert(all.skip(n - 1)[0] == byte);
                    assert(all.skip(n as int) =~= all.skip(n - 1).skip(1));
                    assert(self@.unread() =~= all.skip(n as int));
                    assert(buf@.subrange(0, n as int) =~= before.subrange(0, n - 1).push(byte));
                    assert(all.subrange(0, n as int) =~= all.subrange(0, n - 1).push(byte));
                    assert forall|k: int| n <= k < size implies buf@[k] == old(buf)@[k] by {
                        assert(before.subrange(n - 1, size)[k - (n - 1)] == old(buf)@.subrange(
                            n - 1,
                            size,
                        )[k - (n - 1)]);
                    }
                    assert(buf@.subrange(n as int, size) =~= old(buf)@.subrange(n as int, size));
                }
            }
        }
        Ok(n)
    }
}

} // verus!
