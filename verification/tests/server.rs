use protohackers::speed::connection::{write_message, Message};
use protohackers::speed::domain::{Camera, Dispatcher, Ticket};
use protohackers::speed::server::{
    handle, handle_camera, handle_dispatcher, maybe_tick, want_heartbeat, Action, Event, Fault,
    Heartbeat, Session, State,
};
use std::collections::BTreeSet;

fn sample_camera() -> Camera {
    Camera { road: 123, mile: 8, limit: 60 }
}

fn dispatcher_for(roads: &[u16]) -> Dispatcher {
    Dispatcher { roads: roads.iter().copied().collect::<BTreeSet<u16>>() }
}

fn sample_ticket() -> Ticket {
    Ticket {
        plate: "UN1X".into(),
        road: 123,
        mile1: 8,
        timestamp1: 0,
        mile2: 9,
        timestamp2: 45,
        speed: 8000,
    }
}

#[test]
fn a_new_session_is_unidentified() {
    assert_eq!(
        Session { state: State::Unidentified, heartbeat: Heartbeat::Unset },
        Session::new()
    );
}

#[test]
fn a_camera_identifies_and_reports_plates() {
    let mut session = Session::new();
    assert_eq!(
        Action::Wait,
        handle(&mut session, Event::Received(Message::IAmCamera(sample_camera())))
    );
    assert_eq!(State::Camera(sample_camera()), session.state);
    assert_eq!(
        Action::Record(sample_camera(), "UN1X".into(), 45),
        handle(&mut session, Event::Received(Message::Plate("UN1X".into(), 45)))
    );
    assert_eq!(State::Camera(sample_camera()), session.state);
}

#[test]
fn a_dispatcher_identifies_and_is_registered() {
    let mut session = Session::new();
    assert_eq!(
        Action::Register(dispatcher_for(&[7, 9])),
        handle(&mut session, Event::Received(Message::IAmDispatcher(dispatcher_for(&[7, 9]))))
    );
    assert_eq!(State::Dispatcher(dispatcher_for(&[7, 9])), session.state);
    assert_eq!(
        Action::Send(Message::Ticket(sample_ticket())),
        handle(&mut session, Event::Issued(sample_ticket()))
    );
}

#[test]
fn empty_roads_dispatcher() {
    let mut session = Session::new();
    assert_eq!(
        Action::Wait,
        handle(&mut session, Event::Received(Message::IAmDispatcher(dispatcher_for(&[]))))
    );
    assert_eq!(State::Dispatcher(dispatcher_for(&[])), session.state);
    assert_eq!(
        Action::Beat(1000),
        handle(&mut session, Event::Received(Message::WantHeartbeat(10)))
    );
    assert_eq!(Action::Send(Message::Heartbeat), handle(&mut session, Event::Tick));
    assert_eq!(Action::Send(Message::Heartbeat), handle(&mut session, Event::Tick));
    assert_eq!(State::Dispatcher(dispatcher_for(&[])), session.state);
    assert_eq!(Action::Close, handle(&mut session, Event::Ended));
    assert_eq!(State::Closed, session.state);
}

#[test]
fn heartbeat_cadence() {
    for identify in [
        None,
        Some(Message::IAmCamera(sample_camera())),
        Some(Message::IAmDispatcher(dispatcher_for(&[1]))),
    ] {
        let mut session = Session::new();
        if let Some(message) = identify {
            handle(&mut session, Event::Received(message));
        }
        assert_eq!(Action::Wait, handle(&mut session, Event::Tick));
        assert_eq!(
            Action::Beat(1000),
            handle(&mut session, Event::Received(Message::WantHeartbeat(10)))
        );
        assert_eq!(Heartbeat::Every(1000), session.heartbeat);
        // two and a half seconds hold two intervals of one second
        assert_eq!(Action::Send(Message::Heartbeat), handle(&mut session, Event::Tick));
        assert_eq!(Action::Send(Message::Heartbeat), handle(&mut session, Event::Tick));
        assert_eq!(Heartbeat::Every(1000), session.heartbeat);
    }
}

#[test]
fn duplicate_want_heartbeat() {
    let mut session = Session::new();
    assert_eq!(
        Action::Beat(500),
        handle(&mut session, Event::Received(Message::WantHeartbeat(5)))
    );
    assert_eq!(
        Action::Reject(Fault::AlreadyBeating),
        handle(&mut session, Event::Received(Message::WantHeartbeat(5)))
    );
    assert_eq!(State::Closed, session.state);
    assert_eq!(Action::Close, handle(&mut session, Event::Tick));
    let mut out = Vec::new();
    assert_eq!(Ok(()), write_message(&mut out, &Fault::AlreadyBeating.message()));
    assert_eq!(b"\x10\x0falready beating".to_vec(), out);
}

#[test]
fn a_silent_schedule_counts_as_asked() {
    let mut session = Session::new();
    assert_eq!(Action::Wait, handle(&mut session, Event::Received(Message::WantHeartbeat(0))));
    assert_eq!(Heartbeat::Silent, session.heartbeat);
    assert_eq!(Action::Wait, handle(&mut session, Event::Tick));
    assert_eq!(
        Action::Reject(Fault::AlreadyBeating),
        handle(&mut session, Event::Received(Message::WantHeartbeat(3)))
    );
}

#[test]
fn the_schedule_survives_identification() {
    let mut session = Session::new();
    handle(&mut session, Event::Received(Message::WantHeartbeat(25)));
    handle(&mut session, Event::Received(Message::IAmCamera(sample_camera())));
    assert_eq!(Heartbeat::Every(2500), session.heartbeat);
    assert_eq!(
        Action::Reject(Fault::AlreadyBeating),
        handle(&mut session, Event::Received(Message::WantHeartbeat(1)))
    );
}

#[test]
fn the_longest_interval_fits() {
    let mut heartbeat = Heartbeat::Unset;
    assert_eq!(Action::Beat(429496729500), want_heartbeat(&mut heartbeat, u32::MAX));
    assert_eq!(Heartbeat::Every(429496729500), heartbeat);
}

#[test]
fn an_unidentified_client_may_not_send_plates() {
    for event in [
        Event::Received(Message::Plate("UN1X".into(), 1)),
        Event::Received(Message::Heartbeat),
        Event::Received(Message::Error(b"x".to_vec())),
        Event::Received(Message::Ticket(sample_ticket())),
        Event::Garbled,
    ] {
        let mut session = Session::new();
        assert_eq!(Action::Reject(Fault::InvalidMessage), handle(&mut session, event));
        assert_eq!(State::Closed, session.state);
    }
}

#[test]
fn a_camera_may_not_identify_again() {
    for event in [
        Event::Received(Message::IAmCamera(sample_camera())),
        Event::Received(Message::IAmDispatcher(dispatcher_for(&[1]))),
        Event::Received(Message::Heartbeat),
        Event::Garbled,
    ] {
        let mut session = Session { state: State::Camera(sample_camera()), heartbeat: Heartbeat::Unset };
        assert_eq!(Action::Reject(Fault::InvalidCameraMessage), handle(&mut session, event));
        assert_eq!(State::Closed, session.state);
    }
}

#[test]
fn a_dispatcher_may_only_ask_for_heartbeats() {
    for event in [
        Event::Received(Message::Plate("UN1X".into(), 1)),
        Event::Received(Message::IAmCamera(sample_camera())),
        Event::Received(Message::IAmDispatcher(dispatcher_for(&[1]))),
        Event::Garbled,
    ] {
        let mut session = Session {
            state: State::Dispatcher(dispatcher_for(&[1])),
            heartbeat: Heartbeat::Unset,
        };
        assert_eq!(Action::Reject(Fault::InvalidDispatcherMessage), handle(&mut session, event));
        assert_eq!(State::Closed, session.state);
    }
}

#[test]
fn tickets_go_to_dispatchers_only() {
    let mut session = Session::new();
    assert_eq!(Action::Wait, handle(&mut session, Event::Issued(sample_ticket())));
    let mut heartbeat = Heartbeat::Unset;
    assert_eq!(
        Action::Wait,
        handle_camera(&mut heartbeat, sample_camera(), Event::Issued(sample_ticket()))
    );
    assert_eq!(
        Action::Send(Message::Ticket(sample_ticket())),
        handle_dispatcher(&mut heartbeat, Event::Issued(sample_ticket()))
    );
}

#[test]
fn the_end_of_the_stream_closes_in_silence() {
    for state in [
        State::Unidentified,
        State::Camera(sample_camera()),
        State::Dispatcher(dispatcher_for(&[1])),
        State::Closed,
    ] {
        let mut session = Session { state, heartbeat: Heartbeat::Every(100) };
        assert_eq!(Action::Close, handle(&mut session, Event::Ended));
        assert_eq!(State::Closed, session.state);
        assert_eq!(Action::Close, handle(&mut session, Event::Tick));
    }
}

#[test]
fn maybe_tick_beats_only_on_a_schedule() {
    assert_eq!(Action::Wait, maybe_tick(&Heartbeat::Unset));
    assert_eq!(Action::Wait, maybe_tick(&Heartbeat::Silent));
    assert_eq!(Action::Send(Message::Heartbeat), maybe_tick(&Heartbeat::Every(100)));
}

#[test]
fn faults_have_their_words() {
    assert_eq!("already beating", Fault::AlreadyBeating.words());
    assert_eq!("invalid message", Fault::InvalidMessage.words());
    assert_eq!("invalid camera message", Fault::InvalidCameraMessage.words());
    assert_eq!("invalid dispatcher message", Fault::InvalidDispatcherMessage.words());
    assert_eq!(
        Message::Error(b"invalid dispatcher message".to_vec()),
        Fault::InvalidDispatcherMessage.message()
    );
}
