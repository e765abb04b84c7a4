//! The state machine of one connection. A client is unidentified until it
//! says that it is a camera or a dispatcher, and keeps that role for as
//! long as the connection lasts. In any role it may ask once for
//! heartbeats. The functions here decide what follows from each event;
//! reading, writing and timing are for the caller.

use vstd::prelude::*;
use crate::bytes::part;
use crate::speed::connection::{encodable, Message, MessageView};
use crate::speed::domain::{Camera, Dispatcher, Plate, Road, Ticket, TicketView, Timestamp};

verus! {

/// The heartbeats that a client has asked for.
#[derive(Clone, Copy, Debug, PartialEq, Eq)]
pub enum Heartbeat {
    /// The client has not asked yet.
    Unset,
    /// The client has asked for none.
    Silent,
    /// The client has asked for one every so many milliseconds.
    Every(u64),
}

/// What a client did wrong.
#[derive(Clone, Copy, Debug, PartialEq, Eq)]
pub enum Fault {
    /// It asked for heartbeats a second time.
    AlreadyBeating,
    /// An unidentified client sent something other than an
    /// identification or a request for heartbeats.
    InvalidMessage,
    /// A camera sent something other than a plate or a request for
    /// heartbeats.
    InvalidCameraMessage,
    /// A dispatcher sent something other than a request for heartbeats.
    InvalidDispatcherMessage,
}

/// The state of a connection.
#[derive(Clone, Debug, PartialEq, Eq)]
pub enum State {
    /// The client has not said what it is.
    Unidentified,
    /// The client is this camera.
    Camera(Camera),
    /// The client is this dispatcher.
    Dispatcher(Dispatcher),
    /// The connection is over.
    Closed,
}

/// One connection: its state and the heartbeats asked for on it.
#[derive(Clone, Debug, PartialEq, Eq)]
pub struct Session {
    pub state: State,
    pub heartbeat: Heartbeat,
}

/// What can happen on a connection.
#[derive(Clone, Debug, PartialEq, Eq)]
pub enum Event {
    /// A message arrived from the client.
    Received(Message),
    /// Bytes arrived that begin with the tag of no message.
    Garbled,
    /// The heartbeat timer fired.
    Tick,
    /// The region has a ticket for this dispatcher.
    Issued(Ticket),
    /// The stream ended or failed.
    Ended,
}

/// What is to be done on a connection.
#[derive(Clone, Debug, PartialEq, Eq)]
pub enum Action {
    /// Nothing.
    Wait,
    /// Start a timer that fires every so many milliseconds, for the first
    /// time after one such interval.
    Beat(u64),
    /// Hand this observation to the region.
    Record(Camera, Plate, Timestamp),
    /// Register this dispatcher with the region, and from then on pass on
    /// the tickets that the region has for it.
    Register(Dispatcher),
    /// Write this message to the client.
    Send(Message),
    /// Tell the client what it did wrong, then close the connection.
    Reject(Fault),
    /// Close the connection without a word.
    Close,
}

/// What a [`State`] says, with the roads of a dispatcher as a set.
pub enum StateView {
    Unidentified,
    Camera(Camera),
    Dispatcher(Set<Road>),
    Closed,
}

/// What a [`Session`] says.
pub struct SessionView {
    pub state: StateView,
    pub heartbeat: Heartbeat,
}

/// What an [`Event`] says.
pub enum EventView {
    Received(MessageView),
    Garbled,
    Tick,
    Issued(TicketView),
    Ended,
}

/// What an [`Action`] says.
pub enum ActionView {
    Wait,
    Beat(u64),
    Record(Camera, Seq<u8>, Timestamp),
    Register(Set<Road>),
    Send(MessageView),
    Reject(Fault),
    Close,
}

impl View for State {
    type V = StateView;

    open spec fn view(&self) -> StateView {
        match self {
            State::Unidentified => StateView::Unidentified,
            State::Camera(camera) => StateView::Camera(*camera),
            State::Dispatcher(dispatcher) => StateView::Dispatcher(dispatcher.roads@),
            State::Closed => StateView::Closed,
        }
    }
}

impl View for Session {
    type V = SessionView;

    open spec fn view(&self) -> SessionView {
        SessionView { state: self.state@, heartbeat: self.heartbeat }
    }
}

impl View for Event {
    type V = EventView;

    open spec fn view(&self) -> EventView {
        match self {
            Event::Received(message) => EventView::Received(message@),
            Event::Garbled => EventView::Garbled,
            Event::Tick => EventView::Tick,
            Event::Issued(ticket) => EventView::Issued(ticket@),
            Event::Ended => EventView::Ended,
        }
    }
}

impl View for Action {
    type V = ActionView;

    open spec fn view(&self) -> ActionView {
        match self {
            Action::Wait => ActionView::Wait,
            Action::Beat(interval) => ActionView::Beat(*interval),
            Action::Record(camera, plate, time) => ActionView::Record(*camera, plate@, *time),
            Action::Register(dispatcher) => ActionView::Register(dispatcher.roads@),
            Action::Send(message) => ActionView::Send(message@),
            Action::Reject(fault) => ActionView::Reject(*fault),
            Action::Close => ActionView::Close,
        }
    }
}

/// The heartbeats that a request for one every `deciseconds` tenths of a
/// second asks for: none for zero, else one every `deciseconds` times a
/// hundred milliseconds.
pub open spec fn schedule(deciseconds: u32) -> Heartbeat {
    if deciseconds == 0 {
        Heartbeat::Silent
    } else {
        Heartbeat::Every((deciseconds * 100) as u64)
    }
}

/// What follows from a request for heartbeats. The first request on a
/// connection sets its schedule, and the timer is to be started unless
/// the schedule is silent. A second request is a fault, whatever it asks
/// for.
pub open spec fn asked(heartbeat: Heartbeat, deciseconds: u32) -> (Heartbeat, ActionView) {
    match heartbeat {
        Heartbeat::Unset => (
            schedule(deciseconds),
            if deciseconds == 0 {
                ActionView::Wait
            } else {
                ActionView::Beat((deciseconds * 100) as u64)
            },
        ),
        _ => (heartbeat, ActionView::Reject(Fault::AlreadyBeating)),
    }
}

/// What follows when the timer fires: a heartbeat, if the client asked for
/// heartbeats.
pub open spec fn ticked(heartbeat: Heartbeat) -> ActionView {
    match heartbeat {
        Heartbeat::Every(_) => ActionView::Send(MessageView::Heartbeat),
        _ => ActionView::Wait,
    }
}

/// Whether an action ends the connection.
pub open spec fn is_final(action: ActionView) -> bool {
    action is Reject || action is Close
}

/// What follows from an event on the connection of an unidentified
/// client: the state and the heartbeat schedule afterwards, and what is to
/// be done. A camera's or a dispatcher's identification gives the client
/// its role; a dispatcher is registered with the region unless it has no
/// roads. A request for heartbeats is served. Any other message, and
/// bytes that are none, are a fault.
pub open spec fn unidentified_step(heartbeat: Heartbeat, event: EventView) -> (
    StateView,
    Heartbeat,
    ActionView,
) {
    let stay = StateView::Unidentified;
    match event {
        EventView::Received(MessageView::WantHeartbeat(deciseconds)) => (
            stay,
            asked(heartbeat, deciseconds).0,
            asked(heartbeat, deciseconds).1,
        ),
        EventView::Received(MessageView::IAmCamera(camera)) => (
            StateView::Camera(camera),
            heartbeat,
            ActionView::Wait,
        ),
        EventView::Received(MessageView::IAmDispatcher(roads)) => (
            StateView::Dispatcher(roads),
            heartbeat,
            if roads == Set::<Road>::empty() {
                ActionView::Wait
            } else {
                ActionView::Register(roads)
            },
        ),
        EventView::Received(_) => (stay, heartbeat, ActionView::Reject(Fault::InvalidMessage)),
        EventView::Garbled => (stay, heartbeat, ActionView::Reject(Fault::InvalidMessage)),
        EventView::Tick => (stay, heartbeat, ticked(heartbeat)),
        EventView::Issued(_) => (stay, heartbeat, ActionView::Wait),
        EventView::Ended => (stay, heartbeat, ActionView::Close),
    }
}

/// What follows from an event on the connection of a camera: the
/// heartbeat schedule afterwards, and what is to be done. A plate is
/// handed to the region as an observation by this camera. A request for
/// heartbeats is served. Any other message, and bytes that are none, are
/// a fault.
pub open spec fn camera_step(heartbeat: Heartbeat, camera: Camera, event: EventView) -> (
    Heartbeat,
    ActionView,
) {
    match event {
        EventView::Received(MessageView::WantHeartbeat(deciseconds)) => asked(
            heartbeat,
            deciseconds,
        ),
        EventView::Received(MessageView::Plate(plate, time)) => (
            heartbeat,
            ActionView::Record(camera, plate, time),
        ),
        EventView::Received(_) => (heartbeat, ActionView::Reject(Fault::InvalidCameraMessage)),
        EventView::Garbled => (heartbeat, ActionView::Reject(Fault::InvalidCameraMessage)),
        EventView::Tick => (heartbeat, ticked(heartbeat)),
        EventView::Issued(_) => (heartbeat, ActionView::Wait),
        EventView::Ended => (heartbeat, ActionView::Close),
    }
}

/// What follows from an event on the connection of a dispatcher: the
/// heartbeat schedule afterwards, and what is to be done. A ticket from
/// the region is written to the client. A request for heartbeats is
/// served. Any message but that, and bytes that are none, are a fault.
pub open spec fn dispatcher_step(heartbeat: Heartbeat, event: EventView) -> (
    Heartbeat,
    ActionView,
) {
    match event {
        EventView::Received(MessageView::WantHeartbeat(deciseconds)) => asked(
            heartbeat,
            deciseconds,
        ),
        EventView::Received(_) => (heartbeat, ActionView::Reject(Fault::InvalidDispatcherMessage)),
        EventView::Garbled => (heartbeat, ActionView::Reject(Fault::InvalidDispatcherMessage)),
        EventView::Tick => (heartbeat, ticked(heartbeat)),
        EventView::Issued(ticket) => (heartbeat, ActionView::Send(MessageView::Ticket(ticket))),
        EventView::Ended => (heartbeat, ActionView::Close),
    }
}

/// The session after a step that would leave the client in the state
/// `stay`: the connection is over once the action ends it.
pub open spec fn settle(stay: StateView, heartbeat: Heartbeat, action: ActionView) -> (
    SessionView,
    ActionView,
) {
    (
        SessionView {
            state: if is_final(action) {
                StateView::Closed
            } else {
                stay
            },
            heartbeat,
        },
        action,
    )
}

/// What follows from an event on a connection, whatever its state: the
/// session afterwards, and what is to be done. On a connection that is
/// over, nothing changes any more, and it is to be closed.
pub open spec fn step(session: SessionView, event: EventView) -> (SessionView, ActionView) {
    match session.state {
        StateView::Unidentified => {
            let (state, heartbeat, action) = unidentified_step(session.heartbeat, event);
            settle(state, heartbeat, action)
        },
        StateView::Camera(camera) => {
            let (heartbeat, action) = camera_step(session.heartbeat, camera, event);
            settle(session.state, heartbeat, action)
        },
        StateView::Dispatcher(roads) => {
            let (heartbeat, action) = dispatcher_step(session.heartbeat, event);
            settle(session.state, heartbeat, action)
        },
        StateView::Closed => (session, ActionView::Close),
    }
}

/// Serves a request for heartbeats: see [`asked`].
pub fn want_heartbeat(heartbeat: &mut Heartbeat, deciseconds: u32) -> (action: Action)
    ensures
        (*final(heartbeat), action@) == asked(*old(heartbeat), deciseconds),
{
    match heartbeat {
        Heartbeat::Unset => {
            if deciseconds == 0 {
                *heartbeat = Heartbeat::Silent;
                Action::Wait
            } else {
                let interval: u64 = (deciseconds as u64) * 100;
                *heartbeat = Heartbeat::Every(interval);
                Action::Beat(interval)
            }
        },
        _ => Action::Reject(Fault::AlreadyBeating),
    }
}

/// What is to be done when the timer fires: see [`ticked`].
pub fn maybe_tick(heartbeat: &Heartbeat) -> (action: Action)
    ensures
        action@ == ticked(*heartbeat),
{
    match heartbeat {
        Heartbeat::Every(_) => Action::Send(Message::Heartbeat),
        _ => Action::Wait,
    }
}

/// Decides what follows from an event on the connection of a camera: see
/// [`camera_step`].
pub fn handle_camera(heartbeat: &mut Heartbeat, camera: Camera, event: Event) -> (action: Action)
    ensures
        (*final(heartbeat), action@) == camera_step(*old(heartbeat), camera, event@),
{
    match event {
        Event::Received(Message::WantHeartbeat(deciseconds)) => want_heartbeat(
            heartbeat,
            deciseconds,
        ),
        Event::Received(Message::Plate(plate, time)) => Action::Record(camera, plate, time),
        Event::Received(_) => Action::Reject(Fault::InvalidCameraMessage),
        Event::Garbled => Action::Reject(Fault::InvalidCameraMessage),
        Event::Tick => maybe_tick(heartbeat),
        Event::Issued(_) => Action::Wait,
        Event::Ended => Action::Close,
    }
}

/// Decides what follows from an event on the connection of a dispatcher:
/// see [`dispatcher_step`].
pub fn handle_dispatcher(heartbeat: &mut Heartbeat, event: Event) -> (action: Action)
    ensures
        (*final(heartbeat), action@) == dispatcher_step(*old(heartbeat), event@),
{
    match event {
        Event::Received(Message::WantHeartbeat(deciseconds)) => want_heartbeat(
            heartbeat,
            deciseconds,
        ),
        Event::Received(_) => Action::Reject(Fault::InvalidDispatcherMessage),
        Event::Garbled => Action::Reject(Fault::InvalidDispatcherMessage),
        Event::Tick => maybe_tick(heartbeat),
        Event::Issued(ticket) => Action::Send(Message::Ticket(ticket)),
        Event::Ended => Action::Close,
    }
}

impl Session {
    /// A connection that has just been accepted: the client is
    /// unidentified and has asked for no heartbeats.
    pub fn new() -> (session: Session)
        ensures
            session@ == (SessionView {
                state: StateView::Unidentified,
                heartbeat: Heartbeat::Unset,
            }),
    {
        Session { state: State::Unidentified, heartbeat: Heartbeat::Unset }
    }
}

/// Decides what follows from an event on a connection, and moves the
/// session on: see [`step`].
pub fn handle(session: &mut Session, event: Event) -> (action: Action)
    ensures
        (final(session)@, action@) == step(old(session)@, event@),
{
    let action = match &session.state {
        State::Closed => {
            return Action::Close;
        },
        State::Camera(camera) => {
            let camera = *camera;
            handle_camera(&mut session.heartbeat, camera, event)
        },
        State::Dispatcher(_) => handle_dispatcher(&mut session.heartbeat, event),
        State::Unidentified => match event {
            Event::Received(Message::WantHeartbeat(deciseconds)) => want_heartbeat(
                &mut session.heartbeat,
                deciseconds,
            ),
            Event::Received(Message::IAmCamera(camera)) => {
                session.state = State::Camera(camera);
                Action::Wait
            },
            Event::Received(Message::IAmDispatcher(dispatcher)) => {
                let action = if dispatcher.roads.is_empty() {
                    Action::Wait
                } else {
                    Action::Register(Dispatcher { roads: dispatcher.roads.clone() })
                };
                session.state = State::Dispatcher(dispatcher);
                action
            },
            Event::Received(_) => Action::Reject(Fault::InvalidMessage),
            Event::Garbled => Action::Reject(Fault::InvalidMessage),
            Event::Tick => maybe_tick(&session.heartbeat),
            Event::Issued(_) => Action::Wait,
            Event::Ended => Action::Close,
        },
    };
    match action {
        Action::Reject(_) => {
            session.state = State::Closed;
        },
        Action::Close => {
            session.state = State::Closed;
        },
        _ => {},
    }
    action
}

/// The session after the timer has fired `n` times and nothing else has
/// happened.
pub open spec fn after_ticks(session: SessionView, n: nat) -> SessionView
    decreases n,
{
    if n == 0 {
        session
    } else {
        step(after_ticks(session, (n - 1) as nat), EventView::Tick).0
    }
}

/// The number of heartbeats that are sent when the timer fires `n` times
/// and nothing else happens.
pub open spec fn beats(session: SessionView, n: nat) -> nat
    decreases n,
{
    if n == 0 {
        0
    } else {
        let earlier = beats(session, (n - 1) as nat);
        if step(after_ticks(session, (n - 1) as nat), EventView::Tick).1 == ActionView::Send(
            MessageView::Heartbeat,
        ) {
            earlier + 1
        } else {
            earlier
        }
    }
}

/// On a connection that is not over and on which heartbeats were asked
/// for, in any role, each firing of the timer sends exactly one heartbeat
/// and changes nothing: over `n` intervals, `n` heartbeats are sent.
pub proof fn lemma_one_beat_per_tick(session: SessionView, n: nat)
    requires
        !(session.state is Closed),
        session.heartbeat is Every,
    ensures
        after_ticks(session, n) == session,
        beats(session, n) == n,
    decreases n,
{
    if n > 0 {
        lemma_one_beat_per_tick(session, (n - 1) as nat);
    }
}

/// Without a schedule, or with a silent one, no heartbeat is ever sent.
pub proof fn lemma_no_beat_unasked(session: SessionView, n: nat)
    requires
        !(session.heartbeat is Every),
    ensures
        after_ticks(session, n).heartbeat == session.heartbeat,
        beats(session, n) == 0,
    decreases n,
{
    if n > 0 {
        lemma_no_beat_unasked(session, (n - 1) as nat);
    }
}

/// A connection serves one request for heartbeats at most: once its
/// schedule is set, every further request is a fault that ends the
/// connection, in any role and whatever is asked for.
pub proof fn lemma_second_request_is_a_fault(session: SessionView, deciseconds: u32)
    requires
        !(session.state is Closed),
        !(session.heartbeat is Unset),
    ensures
        step(session, EventView::Received(MessageView::WantHeartbeat(deciseconds))).1
            == ActionView::Reject(Fault::AlreadyBeating),
        step(session, EventView::Received(MessageView::WantHeartbeat(deciseconds))).0.state
            is Closed,
{
}

impl Fault {
    /// The words in which the client is told of the fault.
    pub open spec fn wording(&self) -> Seq<char> {
        match self {
            Fault::AlreadyBeating => "already beating"@,
            Fault::InvalidMessage => "invalid message"@,
            Fault::InvalidCameraMessage => "invalid camera message"@,
            Fault::InvalidDispatcherMessage => "invalid dispatcher message"@,
        }
    }

    /// The words of the fault as a string.
    pub fn words(&self) -> (words: &'static str)
        ensures
            words@ == self.wording(),
    {
        match self {
            Fault::AlreadyBeating => "already beating",
            Fault::InvalidMessage => "invalid message",
            Fault::InvalidCameraMessage => "invalid camera message",
            Fault::InvalidDispatcherMessage => "invalid dispatcher message",
        }
    }

    /// The error message that tells the client of the fault. It can
    /// always be written.
    pub fn message(&self) -> (message: Message)
        ensures
            message@ == MessageView::Error(vstd::utf8::encode_utf8(self.wording())),
            encodable(message@),
    {
        let words = self.words();
        proof {
            reveal_strlit("already beating");
            reveal_strlit("invalid message");
            reveal_strlit("invalid camera message");
            reveal_strlit("invalid dispatcher message");
            assert(vstd::string::is_ascii(words)) by {
                assert(words@.len() <= 26);
                assert forall|i: int| 0 <= i < words@.len() implies (words@[i] as u32) < 128 by {}
            }
            vstd::string::is_ascii_spec_bytes(words);
        }
        let bytes = words.as_bytes();
        let text = part(bytes, 0, bytes.len());
        assert(text@ =~= bytes@);
        Message::Error(text)
    }
}

} // verus!
