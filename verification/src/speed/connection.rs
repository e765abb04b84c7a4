//! The wire format of the speed-enforcement server: how a message becomes
//! bytes and how bytes become a message. All integers are big-endian and
//! unsigned; a string is one byte that gives its length, and then its
//! bytes.

use vstd::prelude::*;
use std::collections::BTreeSet;
use crate::bytes::part;
use crate::speed::domain::{Camera, Dispatcher, Plate, Road, Ticket, TicketView, Timestamp};
use crate::speed::roads::{rising, sorted_roads};

verus! {

/// The tag of an error message.
pub const TAG_ERROR: u8 = 0x10;

/// The tag of a plate observation.
pub const TAG_PLATE: u8 = 0x20;

/// The tag of a ticket.
pub const TAG_TICKET: u8 = 0x21;

/// The tag of a request for heartbeats.
pub const TAG_WANT_HEARTBEAT: u8 = 0x40;

/// The tag of a heartbeat.
pub const TAG_HEARTBEAT: u8 = 0x41;

/// The tag by which a camera identifies itself.
pub const TAG_I_AM_CAMERA: u8 = 0x80;

/// The tag by which a dispatcher identifies itself.
pub const TAG_I_AM_DISPATCHER: u8 = 0x81;

/// The longest string, and the most roads, that a message can carry.
pub const MAX_COUNT: usize = 255;

/// A message between a client and the server.
#[derive(Clone, Debug, PartialEq, Eq)]
pub enum Message {
    /// Server to client: what the client did wrong.
    Error(Vec<u8>),
    /// Camera to server: a plate was seen at a time.
    Plate(Plate, Timestamp),
    /// Server to dispatcher: a ticket.
    Ticket(Ticket),
    /// Client to server: send a heartbeat at this interval, in tenths of a
    /// second; none at all if it is zero.
    WantHeartbeat(u32),
    /// Server to client: a heartbeat.
    Heartbeat,
    /// Client to server: the client is this camera.
    IAmCamera(Camera),
    /// Client to server: the client is this dispatcher.
    IAmDispatcher(Dispatcher),
}

/// What a [`Message`] says, with strings as sequences of bytes and the
/// roads of a dispatcher as a set.
pub enum MessageView {
    Error(Seq<u8>),
    Plate(Seq<u8>, Timestamp),
    Ticket(TicketView),
    WantHeartbeat(u32),
    Heartbeat,
    IAmCamera(Camera),
    IAmDispatcher(Set<Road>),
}

impl View for Message {
    type V = MessageView;

    open spec fn view(&self) -> MessageView {
        match self {
            Message::Error(text) => MessageView::Error(text@),
            Message::Plate(plate, time) => MessageView::Plate(plate@, *time),
            Message::Ticket(ticket) => MessageView::Ticket(ticket@),
            Message::WantHeartbeat(interval) => MessageView::WantHeartbeat(*interval),
            Message::Heartbeat => MessageView::Heartbeat,
            Message::IAmCamera(camera) => MessageView::IAmCamera(*camera),
            Message::IAmDispatcher(dispatcher) => MessageView::IAmDispatcher(dispatcher.roads@),
        }
    }
}

/// Why a message cannot be written.
#[derive(Clone, Copy, Debug, PartialEq, Eq)]
pub enum EncodeError {
    /// A string of the message is longer than 255 bytes.
    StringTooLong,
    /// The dispatcher of the message has more than 255 roads.
    TooManyRoads,
}

/// The two bytes of a 16-bit number.
pub open spec fn be16(x: u16) -> Seq<u8> {
    seq![(x / 0x100) as u8, (x % 0x100) as u8]
}

/// The four bytes of a 32-bit number.
pub open spec fn be32(x: u32) -> Seq<u8> {
    seq![
        (x / 0x100_0000) as u8,
        (x / 0x1_0000 % 0x100) as u8,
        (x / 0x100 % 0x100) as u8,
        (x % 0x100) as u8,
    ]
}

/// The 16-bit number whose two bytes stand at `at` in `bytes`.
pub open spec fn be16_at(bytes: Seq<u8>, at: int) -> u16 {
    (bytes[at] * 0x100 + bytes[at + 1]) as u16
}

/// The 32-bit number whose four bytes stand at `at` in `bytes`.
pub open spec fn be32_at(bytes: Seq<u8>, at: int) -> u32 {
    (bytes[at] * 0x100_0000 + bytes[at + 1] * 0x1_0000 + bytes[at + 2] * 0x100 + bytes[at
        + 3]) as u32
}

/// A string on the wire: its length, then its bytes.
pub open spec fn text_wire(text: Seq<u8>) -> Seq<u8> {
    seq![text.len() as u8] + text
}

/// The roads of `roads` from `from` upwards, in rising order.
pub open spec fn roads_rising(roads: Set<Road>, from: int) -> Seq<Road>
    decreases 0x1_0000 - from,
{
    if from < 0 || from >= 0x1_0000 {
        Seq::empty()
    } else if roads.contains(from as u16) {
        seq![from as u16] + roads_rising(roads, from + 1)
    } else {
        roads_rising(roads, from + 1)
    }
}

/// A list of roads on the wire: two bytes each.
pub open spec fn roads_wire(order: Seq<Road>) -> Seq<u8>
    decreases order.len(),
{
    if order.len() == 0 {
        Seq::empty()
    } else {
        roads_wire(order.drop_last()) + be16(order.last())
    }
}

/// The fields of a ticket on the wire.
pub open spec fn ticket_wire(ticket: TicketView) -> Seq<u8> {
    text_wire(ticket.plate) + be16(ticket.road) + be16(ticket.mile1) + be32(ticket.timestamp1)
        + be16(ticket.mile2) + be32(ticket.timestamp2) + be16(ticket.speed)
}

/// Whether a message can be written: its strings have at most 255 bytes,
/// and its dispatcher at most 255 roads.
pub open spec fn encodable(message: MessageView) -> bool {
    match message {
        MessageView::Error(text) => text.len() <= MAX_COUNT,
        MessageView::Plate(plate, _) => plate.len() <= MAX_COUNT,
        MessageView::Ticket(ticket) => ticket.plate.len() <= MAX_COUNT,
        MessageView::IAmDispatcher(roads) => roads_rising(roads, 0).len() <= MAX_COUNT,
        _ => true,
    }
}

/// The frame of a message: its tag, then its fields in order.
pub open spec fn wire(message: MessageView) -> Seq<u8> {
    match message {
        MessageView::Error(text) => seq![TAG_ERROR] + text_wire(text),
        MessageView::Plate(plate, time) => seq![TAG_PLATE] + text_wire(plate) + be32(time),
        MessageView::Ticket(ticket) => seq![TAG_TICKET] + ticket_wire(ticket),
        MessageView::WantHeartbeat(interval) => seq![TAG_WANT_HEARTBEAT] + be32(interval),
        MessageView::Heartbeat => seq![TAG_HEARTBEAT],
        MessageView::IAmCamera(camera) => seq![TAG_I_AM_CAMERA] + be16(camera.road) + be16(
            camera.mile,
        ) + be16(camera.limit),
        MessageView::IAmDispatcher(roads) => seq![
            TAG_I_AM_DISPATCHER,
            roads_rising(roads, 0).len() as u8,
        ] + roads_wire(roads_rising(roads, 0)),
    }
}

/// What the start of a stream of bytes holds.
pub enum Parsed {
    /// A whole frame: its message, and the number of bytes it takes up.
    Frame(MessageView, nat),
    /// The beginning of a frame that needs at least this many more bytes.
    Short(nat),
    /// A byte that is the tag of no message.
    Unknown(u8),
}

/// The set of the first `count` roads listed from `at` in `bytes`.
pub open spec fn roads_at(bytes: Seq<u8>, at: int, count: nat) -> Set<Road>
    decreases count,
{
    if count == 0 {
        Set::empty()
    } else {
        roads_at(bytes, at, (count - 1) as nat).insert(be16_at(bytes, at + 2 * (count - 1)))
    }
}

/// The frame of `total` bytes that holds `message`, once `bytes` has
/// them all; before that, the number of bytes that are missing.
pub open spec fn when_whole(bytes: Seq<u8>, total: int, message: MessageView) -> Parsed {
    if bytes.len() < total {
        Parsed::Short((total - bytes.len()) as nat)
    } else {
        Parsed::Frame(message, total as nat)
    }
}

/// Reads the frame at the start of `bytes`. A frame is read as soon as
/// all its bytes are there, whatever follows them. Before that, the
/// result says how many bytes are missing at the least: never more than
/// the frame turns out to need.
pub open spec fn parse(bytes: Seq<u8>) -> Parsed {
    if bytes.len() == 0 {
        Parsed::Short(1)
    } else if bytes[0] == TAG_HEARTBEAT {
        Parsed::Frame(MessageView::Heartbeat, 1)
    } else if bytes[0] == TAG_WANT_HEARTBEAT {
        when_whole(bytes, 5, MessageView::WantHeartbeat(be32_at(bytes, 1)))
    } else if bytes[0] == TAG_I_AM_CAMERA {
        when_whole(
            bytes,
            7,
            MessageView::IAmCamera(
                Camera {
                    road: be16_at(bytes, 1),
                    mile: be16_at(bytes, 3),
                    limit: be16_at(bytes, 5),
                },
            ),
        )
    } else if bytes[0] == TAG_ERROR || bytes[0] == TAG_PLATE || bytes[0] == TAG_TICKET || bytes[0]
        == TAG_I_AM_DISPATCHER {
        if bytes.len() < 2 {
            Parsed::Short(1)
        } else {
            let n = bytes[1] as int;
            if bytes[0] == TAG_ERROR {
                when_whole(bytes, 2 + n, MessageView::Error(bytes.subrange(2, 2 + n)))
            } else if bytes[0] == TAG_PLATE {
                when_whole(
                    bytes,
                    6 + n,
                    MessageView::Plate(bytes.subrange(2, 2 + n), be32_at(bytes, 2 + n)),
                )
            } else if bytes[0] == TAG_TICKET {
                when_whole(
                    bytes,
                    18 + n,
                    MessageView::Ticket(
                        TicketView {
                            plate: bytes.subrange(2, 2 + n),
                            road: be16_at(bytes, 2 + n),
                            mile1: be16_at(bytes, 4 + n),
                            timestamp1: be32_at(bytes, 6 + n),
                            mile2: be16_at(bytes, 10 + n),
                            timestamp2: be32_at(bytes, 12 + n),
                            speed: be16_at(bytes, 16 + n),
                        },
                    ),
                )
            } else {
                when_whole(
                    bytes,
                    2 + 2 * n,
                    MessageView::IAmDispatcher(roads_at(bytes, 2, n as nat)),
                )
            }
        }
    } else {
        Parsed::Unknown(bytes[0])
    }
}

/// What [`read_message`] found at the start of its input.
#[derive(Clone, Debug, PartialEq, Eq)]
pub enum Decoded {
    /// A whole frame: its message, and the number of bytes it takes up.
    Frame(Message, usize),
    /// The beginning of a frame that needs at least this many more bytes.
    Incomplete(usize),
    /// A byte that is the tag of no message.
    UnknownTag(u8),
}

impl View for Decoded {
    type V = Parsed;

    open spec fn view(&self) -> Parsed {
        match self {
            Decoded::Frame(message, used) => Parsed::Frame(message@, *used as nat),
            Decoded::Incomplete(missing) => Parsed::Short(*missing as nat),
            Decoded::UnknownTag(tag) => Parsed::Unknown(*tag),
        }
    }
}

/// Appends the two bytes of `x`.
fn put_u16(out: &mut Vec<u8>, x: u16)
    ensures
        final(out)@ == old(out)@ + be16(x),
{
    out.push((x / 0x100) as u8);
    out.push((x % 0x100) as u8);
    assert(out@ =~= old(out)@ + be16(x));
}

/// Appends the four bytes of `x`.
fn put_u32(out: &mut Vec<u8>, x: u32)
    ensures
        final(out)@ == old(out)@ + be32(x),
{
    out.push((x / 0x100_0000) as u8);
    out.push((x / 0x1_0000 % 0x100) as u8);
    out.push((x / 0x100 % 0x100) as u8);
    out.push((x % 0x100) as u8);
    assert(out@ =~= old(out)@ + be32(x));
}

/// Appends a string: its length, then its bytes.
fn put_text(out: &mut Vec<u8>, text: &Vec<u8>)
    requires
        text.len() <= MAX_COUNT,
    ensures
        final(out)@ == old(out)@ + text_wire(text@),
{
    out.push(text.len() as u8);
    let mut i: usize = 0;
    while i < text.len()
        invariant
            i <= text.len(),
            out@ == old(out)@ + seq![text.len() as u8] + text@.subrange(0, i as int),
        decreases text.len() - i,
    {
        out.push(text[i]);
        i += 1;
        assert(out@ =~= old(out)@ + seq![text.len() as u8] + text@.subrange(0, i as int));
    }
    assert(text@.subrange(0, text.len() as int) =~= text@);
    assert(out@ =~= old(out)@ + text_wire(text@));
}

/// The 16-bit number whose two bytes stand at `at`.
fn get_u16(bytes: &[u8], at: usize) -> (x: u16)
    requires
        at + 2 <= bytes.len(),
    ensures
        x == be16_at(bytes@, at as int),
{
    (bytes[at] as u16) * 0x100 + (bytes[at + 1] as u16)
}

/// The 32-bit number whose four bytes stand at `at`.
fn get_u32(bytes: &[u8], at: usize) -> (x: u32)
    requires
        at + 4 <= bytes.len(),
    ensures
        x == be32_at(bytes@, at as int),
{
    (bytes[at] as u32) * 0x100_0000 + (bytes[at + 1] as u32) * 0x1_0000 + (bytes[at + 2] as u32)
        * 0x100 + (bytes[at + 3] as u32)
}


/// The roads that `roads_rising` lists from `from` are the roads of the
/// set from `from` upwards, in rising order.
pub proof fn lemma_roads_rising(roads: Set<Road>, from: int)
    requires
        0 <= from <= 0x1_0000,
    ensures
        rising(roads_rising(roads, from)),
        forall|r: Road| #[trigger]
            roads_rising(roads, from).contains(r) <==> (roads.contains(r) && r >= from),
    decreases 0x1_0000 - from,
{
    let listed = roads_rising(roads, from);
    if from < 0x1_0000 {
        lemma_roads_rising(roads, from + 1);
        let tail = roads_rising(roads, from + 1);
        if roads.contains(from as u16) {
            assert(listed == seq![from as u16] + tail);
            assert(listed[0] == from as u16);
            assert forall|k: int| 1 <= k < listed.len() implies listed[k] == tail[k - 1] by {}
            assert forall|i: int, j: int| 0 <= i < j < listed.len() implies listed[i]
                < listed[j] by {
                assert(listed[j] == tail[j - 1]);
                let r = tail[j - 1];
                assert(tail.contains(r));
                assert(r >= from + 1);
                if i > 0 {
                    assert(listed[i] == tail[i - 1]);
                    assert(tail[i - 1] < tail[j - 1]);
                }
            }
            assert forall|r: Road| #[trigger]
                listed.contains(r) <==> (roads.contains(r) && r >= from) by {
                if listed.contains(r) {
                    let i = choose|i: int| 0 <= i < listed.len() && listed[i] == r;
                    if i > 0 {
                        assert(listed[i] == tail[i - 1]);
                        assert(tail.contains(r));
                    }
                }
                if roads.contains(r) && r >= from {
                    if r == from {
                        assert(listed[0] == r);
                    } else {
                        assert(tail.contains(r));
                        let i = choose|i: int| 0 <= i < tail.len() && tail[i] == r;
                        assert(listed[i + 1] == r);
                    }
                }
            }
        } else {
            assert(listed == tail);
        }
    } else {
        assert(listed =~= Seq::<Road>::empty());
    }
}

/// A rising list of the roads of a set from `from` upwards is the list
/// that `roads_rising` gives.
pub proof fn lemma_rising_is_roads_rising(order: Seq<Road>, roads: Set<Road>, from: int)
    requires
        rising(order),
        0 <= from <= 0x1_0000,
        forall|r: Road| order.contains(r) <==> (roads.contains(r) && r >= from),
    ensures
        order == roads_rising(roads, from),
    decreases 0x1_0000 - from,
{
    if from == 0x1_0000 {
        if order.len() > 0 {
            assert(order.contains(order[0]));
        }
        assert(order =~= Seq::<Road>::empty());
    } else if roads.contains(from as u16) {
        assert(order.contains(from as u16));
        let j = choose|j: int| 0 <= j < order.len() && order[j] == from as u16;
        if j > 0 {
            assert(order[0] < order[j]);
            assert(order.contains(order[0]));
        }
        let tail = order.skip(1);
        assert forall|r: Road| tail.contains(r) <==> (roads.contains(r) && r >= from + 1) by {
            if tail.contains(r) {
                let k = choose|k: int| 0 <= k < tail.len() && tail[k] == r;
                assert(order[k + 1] == r);
                assert(order[0] < order[k + 1]);
                assert(order.contains(r));
            }
            if roads.contains(r) && r >= from + 1 {
                assert(order.contains(r));
                let k = choose|k: int| 0 <= k < order.len() && order[k] == r;
                assert(tail[k - 1] == r);
            }
        }
        assert forall|a: int, b: int| 0 <= a < b < tail.len() implies tail[a] < tail[b] by {
            assert(order[a + 1] < order[b + 1]);
        }
        lemma_rising_is_roads_rising(tail, roads, from + 1);
        assert(order =~= seq![from as u16] + tail);
    } else {
        assert forall|r: Road| order.contains(r) <==> (roads.contains(r) && r >= from + 1) by {
            if order.contains(r) {
                assert(r != from);
            }
        }
        lemma_rising_is_roads_rising(order, roads, from + 1);
    }
}

/// The error with which a message that cannot be written is refused.
pub open spec fn refusal(message: MessageView) -> EncodeError {
    match message {
        MessageView::IAmDispatcher(_) => EncodeError::TooManyRoads,
        _ => EncodeError::StringTooLong,
    }
}

/// Appends the frame of `message` to `out`. A message that cannot be
/// written, because a string of it or the list of its roads is too long,
/// is refused, and `out` stays as it was.
pub fn write_message(out: &mut Vec<u8>, message: &Message) -> (res: Result<(), EncodeError>)
    ensures
        match res {
            Ok(()) => encodable(message@) && final(out)@ == old(out)@ + wire(message@),
            Err(e) => !encodable(message@) && final(out)@ == old(out)@ && e == refusal(message@),
        },
{
    match message {
        Message::Error(text) => {
            if text.len() > MAX_COUNT {
                return Err(EncodeError::StringTooLong);
            }
            out.push(TAG_ERROR);
            put_text(out, text);
            assert(out@ =~= old(out)@ + wire(message@));
        },
        Message::Plate(plate, time) => {
            if plate.len() > MAX_COUNT {
                return Err(EncodeError::StringTooLong);
            }
            out.push(TAG_PLATE);
            put_text(out, plate);
            put_u32(out, *time);
            assert(out@ =~= old(out)@ + wire(message@));
        },
        Message::Ticket(ticket) => {
            if ticket.plate.len() > MAX_COUNT {
                return Err(EncodeError::StringTooLong);
            }
            out.push(TAG_TICKET);
            put_text(out, &ticket.plate);
            put_u16(out, ticket.road);
            put_u16(out, ticket.mile1);
            put_u32(out, ticket.timestamp1);
            put_u16(out, ticket.mile2);
            put_u32(out, ticket.timestamp2);
            put_u16(out, ticket.speed);
            assert(out@ =~= old(out)@ + wire(message@));
        },
        Message::WantHeartbeat(interval) => {
            out.push(TAG_WANT_HEARTBEAT);
            put_u32(out, *interval);
            assert(out@ =~= old(out)@ + wire(message@));
        },
        Message::Heartbeat => {
            out.push(TAG_HEARTBEAT);
            assert(out@ =~= old(out)@ + wire(message@));
        },
        Message::IAmCamera(camera) => {
            out.push(TAG_I_AM_CAMERA);
            put_u16(out, camera.road);
            put_u16(out, camera.mile);
            put_u16(out, camera.limit);
            assert(out@ =~= old(out)@ + wire(message@));
        },
        Message::IAmDispatcher(dispatcher) => {
            let order = sorted_roads(&dispatcher.roads);
            proof {
                assert forall|r: Road| order@.contains(r) <==> (dispatcher.roads@.contains(r) && r
                    >= 0) by {
                    assert(order@.to_set().contains(r) <==> order@.contains(r));
                }
                lemma_rising_is_roads_rising(order@, dispatcher.roads@, 0);
            }
            if order.len() > MAX_COUNT {
                return Err(EncodeError::TooManyRoads);
            }
            out.push(TAG_I_AM_DISPATCHER);
            out.push(order.len() as u8);
            let ghost head = out@;
            let mut i: usize = 0;
            assert(roads_wire(order@.subrange(0, 0)) =~= Seq::<u8>::empty());
            while i < order.len()
                invariant
                    i <= order.len(),
                    out@ == head + roads_wire(order@.subrange(0, i as int)),
                decreases order.len() - i,
            {
                put_u16(out, order[i]);
                i += 1;
                assert(order@.subrange(0, i as int).drop_last() =~= order@.subrange(0, i - 1));
                assert(out@ =~= head + roads_wire(order@.subrange(0, i as int)));
            }
            assert(order@.subrange(0, order.len() as int) =~= order@);
            assert(out@ =~= old(out)@ + wire(message@));
        },
    }
    Ok(())
}

/// Reads the frame at the start of `bytes`: see [`parse`].
pub fn read_message(bytes: &[u8]) -> (res: Decoded)
    ensures
        res@ == parse(bytes@),
{
    if bytes.len() == 0 {
        return Decoded::Incomplete(1);
    }
    let tag = bytes[0];
    if tag == TAG_HEARTBEAT {
        Decoded::Frame(Message::Heartbeat, 1)
    } else if tag == TAG_WANT_HEARTBEAT {
        if bytes.len() < 5 {
            return Decoded::Incomplete(5 - bytes.len());
        }
        Decoded::Frame(Message::WantHeartbeat(get_u32(bytes, 1)), 5)
    } else if tag == TAG_I_AM_CAMERA {
        if bytes.len() < 7 {
            return Decoded::Incomplete(7 - bytes.len());
        }
        let camera = Camera {
            road: get_u16(bytes, 1),
            mile: get_u16(bytes, 3),
            limit: get_u16(bytes, 5),
        };
        Decoded::Frame(Message::IAmCamera(camera), 7)
    } else if tag == TAG_ERROR || tag == TAG_PLATE || tag == TAG_TICKET || tag
        == TAG_I_AM_DISPATCHER {
        if bytes.len() < 2 {
            return Decoded::Incomplete(1);
        }
        let n: usize = bytes[1] as usize;
        if tag == TAG_ERROR {
            let total: usize = 2 + n;
            if bytes.len() < total {
                return Decoded::Incomplete(total - bytes.len());
            }
            Decoded::Frame(Message::Error(part(bytes, 2, 2 + n)), total)
        } else if tag == TAG_PLATE {
            let total: usize = 6 + n;
            if bytes.len() < total {
                return Decoded::Incomplete(total - bytes.len());
            }
            Decoded::Frame(Message::Plate(part(bytes, 2, 2 + n), get_u32(bytes, 2 + n)), total)
        } else if tag == TAG_TICKET {
            let total: usize = 18 + n;
            if bytes.len() < total {
                return Decoded::Incomplete(total - bytes.len());
            }
            let ticket = Ticket {
                plate: part(bytes, 2, 2 + n),
                road: get_u16(bytes, 2 + n),
                mile1: get_u16(bytes, 4 + n),
                timestamp1: get_u32(bytes, 6 + n),
                mile2: get_u16(bytes, 10 + n),
                timestamp2: get_u32(bytes, 12 + n),
                speed: get_u16(bytes, 16 + n),
            };
            Decoded::Frame(Message::Ticket(ticket), total)
        } else {
            let total: usize = 2 + 2 * n;
            if bytes.len() < total {
                return Decoded::Incomplete(total - bytes.len());
            }
            let mut roads: BTreeSet<Road> = BTreeSet::new();
            let mut i: usize = 0;
            while i < n
                invariant
                    i <= n,
                    2 + 2 * n <= bytes.len(),
                    roads@ == roads_at(bytes@, 2, i as nat),
                decreases n - i,
            {
                roads.insert(get_u16(bytes, 2 + 2 * i));
                i += 1;
            }
            Decoded::Frame(Message::IAmDispatcher(Dispatcher { roads }), total)
        }
    } else {
        Decoded::UnknownTag(tag)
    }
}

/// The two bytes of a number, read back, give the number.
pub proof fn lemma_be16_at(bytes: Seq<u8>, at: int, x: u16)
    requires
        0 <= at,
        at + 2 <= bytes.len(),
        bytes.subrange(at, at + 2) == be16(x),
    ensures
        be16_at(bytes, at) == x,
{
    assert(bytes[at] == bytes.subrange(at, at + 2)[0]);
    assert(bytes[at + 1] == bytes.subrange(at, at + 2)[1]);
}

/// The four bytes of a number, read back, give the number.
pub proof fn lemma_be32_at(bytes: Seq<u8>, at: int, x: u32)
    requires
        0 <= at,
        at + 4 <= bytes.len(),
        bytes.subrange(at, at + 4) == be32(x),
    ensures
        be32_at(bytes, at) == x,
{
    assert(bytes[at] == bytes.subrange(at, at + 4)[0]);
    assert(bytes[at + 1] == bytes.subrange(at, at + 4)[1]);
    assert(bytes[at + 2] == bytes.subrange(at, at + 4)[2]);
    assert(bytes[at + 3] == bytes.subrange(at, at + 4)[3]);
}

/// A list of roads takes two bytes for each road.
pub proof fn lemma_roads_wire_len(order: Seq<Road>)
    ensures
        roads_wire(order).len() == 2 * order.len(),
    decreases order.len(),
{
    if order.len() > 0 {
        lemma_roads_wire_len(order.drop_last());
    }
}

/// A list of roads on the wire, read back, gives the set of the roads.
pub proof fn lemma_roads_at(bytes: Seq<u8>, at: int, order: Seq<Road>)
    requires
        0 <= at,
        at + 2 * order.len() <= bytes.len(),
        bytes.subrange(at, at + 2 * order.len()) == roads_wire(order),
    ensures
        roads_at(bytes, at, order.len()) == order.to_set(),
    decreases order.len(),
{
    if order.len() == 0 {
        assert(order.to_set() =~= Set::<Road>::empty());
    } else {
        let front = order.drop_last();
        let n = front.len() as int;
        lemma_roads_wire_len(front);
        lemma_roads_wire_len(order);
        let part = bytes.subrange(at, at + 2 * order.len());
        assert(bytes.subrange(at, at + 2 * n) =~= part.subrange(0, 2 * n));
        assert(part.subrange(0, 2 * n) =~= roads_wire(front));
        lemma_roads_at(bytes, at, front);
        assert(bytes.subrange(at + 2 * n, at + 2 * n + 2) =~= part.subrange(2 * n, 2 * n + 2));
        assert(part.subrange(2 * n, 2 * n + 2) =~= be16(order.last()));
        lemma_be16_at(bytes, at + 2 * n, order.last());
        assert(order.to_set() =~= front.to_set().insert(order.last())) by {
            assert forall|r: Road| order.to_set().contains(r) <==> front.to_set().insert(
                order.last(),
            ).contains(r) by {
                if order.contains(r) {
                    let i = choose|i: int| 0 <= i < order.len() && order[i] == r;
                    if i < n {
                        assert(front[i] == r);
                    }
                }
                if front.contains(r) {
                    let i = choose|i: int| 0 <= i < front.len() && front[i] == r;
                    assert(order[i] == r);
                }
                assert(order[n] == order.last());
            }
        }
    }
}

/// A 16-bit number that was written after `head` is read back there.
proof fn lemma_be16_after(head: Seq<u8>, x: u16, tail: Seq<u8>)
    ensures
        be16_at(head + be16(x) + tail, head.len() as int) == x,
{
    let bytes = head + be16(x) + tail;
    assert(bytes.subrange(head.len() as int, head.len() as int + 2) =~= be16(x));
    lemma_be16_at(bytes, head.len() as int, x);
}

/// A 32-bit number that was written after `head` is read back there.
proof fn lemma_be32_after(head: Seq<u8>, x: u32, tail: Seq<u8>)
    ensures
        be32_at(head + be32(x) + tail, head.len() as int) == x,
{
    let bytes = head + be32(x) + tail;
    assert(bytes.subrange(head.len() as int, head.len() as int + 4) =~= be32(x));
    lemma_be32_at(bytes, head.len() as int, x);
}

/// The fields of a ticket's frame, each read back at its place.
proof fn lemma_ticket_fields(ticket: TicketView, rest: Seq<u8>)
    requires
        ticket.plate.len() <= MAX_COUNT,
    ensures
        ({
            let bytes = wire(MessageView::Ticket(ticket)) + rest;
            let n = ticket.plate.len() as int;
            &&& wire(MessageView::Ticket(ticket)).len() == 18 + n
            &&& bytes[0] == TAG_TICKET
            &&& bytes[1] == n
            &&& bytes.subrange(2, 2 + n) == ticket.plate
            &&& be16_at(bytes, 2 + n) == ticket.road
            &&& be16_at(bytes, 4 + n) == ticket.mile1
            &&& be32_at(bytes, 6 + n) == ticket.timestamp1
            &&& be16_at(bytes, 10 + n) == ticket.mile2
            &&& be32_at(bytes, 12 + n) == ticket.timestamp2
            &&& be16_at(bytes, 16 + n) == ticket.speed
        }),
{
    let n = ticket.plate.len() as int;
    let f1 = be16(ticket.road);
    let f2 = be16(ticket.mile1);
    let f3 = be32(ticket.timestamp1);
    let f4 = be16(ticket.mile2);
    let f5 = be32(ticket.timestamp2);
    let f6 = be16(ticket.speed);
    let a0 = seq![TAG_TICKET] + text_wire(ticket.plate);
    let a1 = a0 + f1;
    let a2 = a1 + f2;
    let a3 = a2 + f3;
    let a4 = a3 + f4;
    let a5 = a4 + f5;
    let a6 = a5 + f6;
    let bytes = a6 + rest;
    assert(wire(MessageView::Ticket(ticket)) =~= a6);
    assert(a0.len() == 2 + n);
    assert(bytes[0] == TAG_TICKET);
    assert(bytes[1] == n as u8);
    assert(bytes.subrange(2, 2 + n) =~= ticket.plate);
    assert(be16_at(bytes, 2 + n) == ticket.road) by {
        assert(bytes =~= a0 + f1 + (f2 + f3 + f4 + f5 + f6 + rest));
        lemma_be16_after(a0, ticket.road, f2 + f3 + f4 + f5 + f6 + rest);
    }
    assert(be16_at(bytes, 4 + n) == ticket.mile1) by {
        assert(bytes =~= a1 + f2 + (f3 + f4 + f5 + f6 + rest));
        lemma_be16_after(a1, ticket.mile1, f3 + f4 + f5 + f6 + rest);
    }
    assert(be32_at(bytes, 6 + n) == ticket.timestamp1) by {
        assert(bytes =~= a2 + f3 + (f4 + f5 + f6 + rest));
        lemma_be32_after(a2, ticket.timestamp1, f4 + f5 + f6 + rest);
    }
    assert(be16_at(bytes, 10 + n) == ticket.mile2) by {
        assert(bytes =~= a3 + f4 + (f5 + f6 + rest));
        lemma_be16_after(a3, ticket.mile2, f5 + f6 + rest);
    }
    assert(be32_at(bytes, 12 + n) == ticket.timestamp2) by {
        assert(bytes =~= a4 + f5 + (f6 + rest));
        lemma_be32_after(a4, ticket.timestamp2, f6 + rest);
    }
    assert(be16_at(bytes, 16 + n) == ticket.speed) by {
        assert(bytes =~= a5 + f6 + rest);
        lemma_be16_after(a5, ticket.speed, rest);
    }
}

/// The frame of a ticket, read back, gives the ticket.
proof fn lemma_round_trip_ticket(ticket: TicketView, rest: Seq<u8>)
    requires
        ticket.plate.len() <= MAX_COUNT,
    ensures
        parse(wire(MessageView::Ticket(ticket)) + rest) == Parsed::Frame(
            MessageView::Ticket(ticket),
            wire(MessageView::Ticket(ticket)).len(),
        ),
{
    lemma_ticket_fields(ticket, rest);
}

/// The frame of a plate observation, read back, gives the observation.
proof fn lemma_round_trip_plate(plate: Seq<u8>, time: Timestamp, rest: Seq<u8>)
    requires
        plate.len() <= MAX_COUNT,
    ensures
        parse(wire(MessageView::Plate(plate, time)) + rest) == Parsed::Frame(
            MessageView::Plate(plate, time),
            wire(MessageView::Plate(plate, time)).len(),
        ),
{
    let n = plate.len() as int;
    let bytes = wire(MessageView::Plate(plate, time)) + rest;
    assert(bytes[0] == TAG_PLATE);
    assert(bytes[1] == n as u8);
    assert(bytes.subrange(2, 2 + n) =~= plate);
    assert(bytes.subrange(2 + n, 6 + n) =~= be32(time));
    lemma_be32_at(bytes, 2 + n, time);
}

/// The frame of a camera's identification, read back, gives the camera.
proof fn lemma_round_trip_camera(camera: Camera, rest: Seq<u8>)
    ensures
        parse(wire(MessageView::IAmCamera(camera)) + rest) == Parsed::Frame(
            MessageView::IAmCamera(camera),
            wire(MessageView::IAmCamera(camera)).len(),
        ),
{
    let bytes = wire(MessageView::IAmCamera(camera)) + rest;
    assert(bytes[0] == TAG_I_AM_CAMERA);
    assert(bytes.subrange(1, 3) =~= be16(camera.road));
    lemma_be16_at(bytes, 1, camera.road);
    assert(bytes.subrange(3, 5) =~= be16(camera.mile));
    lemma_be16_at(bytes, 3, camera.mile);
    assert(bytes.subrange(5, 7) =~= be16(camera.limit));
    lemma_be16_at(bytes, 5, camera.limit);
}

/// The frame of a dispatcher's identification, read back, gives its
/// roads.
proof fn lemma_round_trip_dispatcher(roads: Set<Road>, rest: Seq<u8>)
    requires
        roads_rising(roads, 0).len() <= MAX_COUNT,
    ensures
        parse(wire(MessageView::IAmDispatcher(roads)) + rest) == Parsed::Frame(
            MessageView::IAmDispatcher(roads),
            wire(MessageView::IAmDispatcher(roads)).len(),
        ),
{
    let bytes = wire(MessageView::IAmDispatcher(roads)) + rest;
    let order = roads_rising(roads, 0);
    let n = order.len() as int;
    lemma_roads_wire_len(order);
    lemma_roads_rising(roads, 0);
    assert(bytes[0] == TAG_I_AM_DISPATCHER);
    assert(bytes[1] == n as u8);
    assert(bytes.subrange(2, 2 + 2 * n) =~= roads_wire(order));
    lemma_roads_at(bytes, 2, order);
    assert(order.to_set() =~= roads);
}

/// Reading what was written gives back the message: the frame of a
/// message that can be written, whatever follows it, is read as that
/// message, and as taking up exactly the bytes of the frame.
pub proof fn lemma_round_trip(message: MessageView, rest: Seq<u8>)
    requires
        encodable(message),
    ensures
        parse(wire(message) + rest) == Parsed::Frame(message, wire(message).len()),
{
    let bytes = wire(message) + rest;
    match message {
        MessageView::Error(text) => {
            assert(bytes[0] == TAG_ERROR);
            assert(bytes[1] == text.len() as u8);
            assert(bytes.subrange(2, 2 + text.len() as int) =~= text);
        },
        MessageView::Plate(plate, time) => {
            lemma_round_trip_plate(plate, time, rest);
        },
        MessageView::Ticket(ticket) => {
            lemma_round_trip_ticket(ticket, rest);
        },
        MessageView::WantHeartbeat(interval) => {
            assert(bytes[0] == TAG_WANT_HEARTBEAT);
            assert(bytes.subrange(1, 5) =~= be32(interval));
            lemma_be32_at(bytes, 1, interval);
        },
        MessageView::Heartbeat => {
            assert(bytes[0] == TAG_HEARTBEAT);
        },
        MessageView::IAmCamera(camera) => {
            lemma_round_trip_camera(camera, rest);
        },
        MessageView::IAmDispatcher(roads) => {
            lemma_round_trip_dispatcher(roads, rest);
        },
    }
}

/// A frame that is cut short is seen to be short, and the bytes then
/// asked for do not go beyond its end: a strict prefix of a frame is read
/// as the beginning of a frame, and the number of bytes it is said to
/// miss is at least one and at most what the frame still has.
pub proof fn lemma_prefix_is_short(message: MessageView, cut: int)
    requires
        encodable(message),
        0 <= cut < wire(message).len(),
    ensures
        parse(wire(message).subrange(0, cut)) matches Parsed::Short(missing) && 0 < missing && cut
            + missing <= wire(message).len(),
{
    let part = wire(message).subrange(0, cut);
    if cut > 0 {
        assert(part[0] == wire(message)[0]);
    }
    if cut > 1 {
        assert(part[1] == wire(message)[1]);
    }
    match message {
        MessageView::IAmDispatcher(roads) => {
            lemma_roads_wire_len(roads_rising(roads, 0));
        },
        _ => {},
    }
}

} // verus!
