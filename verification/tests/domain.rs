use protohackers::speed::desks::{Delivery, Desk, Desks, Enrollment, Subscriber};
use protohackers::bytes::{copy_bytes, same_bytes};
use protohackers::speed::domain::{
    copy_ticket, Camera, Dispatcher, Mile, Observation, Plate, Region,
    Ticket, Timestamp, Verdict,
};
use protohackers::speed::issued::{add_days, all_free, IssuedDays};
use protohackers::speed::records::Records;
use protohackers::speed::roads::sorted_roads;
use std::collections::BTreeSet;
use std::collections::VecDeque;
use tokio::sync::mpsc::error::TryRecvError;
use tokio::sync::mpsc::unbounded_channel;

fn camera_on(road: u16, mile: u16, limit: u16) -> Camera {
    Camera { road, mile, limit }
}

fn dispatcher_for(roads: &[u16]) -> Dispatcher {
    Dispatcher { roads: roads.iter().copied().collect::<BTreeSet<u16>>() }
}

fn ticket(plate: &str, road: u16, mile1: u16, t1: u32, mile2: u16, t2: u32, speed: u16) -> Ticket {
    Ticket {
        plate: plate.into(),
        road,
        mile1,
        timestamp1: t1,
        mile2,
        timestamp2: t2,
        speed,
    }
}

#[test]
fn compute_ticket() {
    let camera = Camera {
        road: 0,
        mile: 1,
        limit: 10,
    };
    let plate: Plate = "A1".into();
    let now: Timestamp = 100;
    let then: Timestamp = 110;
    let there: Mile = 2;
    // 1 mile in 10 seconds is 6 miles a minute is 360 miles per hour
    let ticket = Ticket {
        plate: plate.clone(),
        road: 0,
        mile1: 1,
        timestamp1: 100,
        mile2: 2,
        timestamp2: 110,
        speed: 36000,
    };
    assert_eq!(
        Some(ticket),
        Region::compute_ticket(camera, &plate, now, then, there)
    );
}

#[test]
fn replicate_bug() {
    let camera = |mile| Camera {
        road: 64782,
        mile,
        limit: 80,
    };
    let plate = "AD58VWD".to_string();
    let mut region = Region::new();
    region.record_plate(camera(607), plate.clone().into(), 98270088);
    region.record_plate(camera(485), plate.clone().into(), 98277449);
    region.record_plate(camera(348), plate.clone().into(), 98285700);
    region.record_plate(camera(883), plate.clone().into(), 98253436);
    region.record_plate(camera(772), plate.clone().into(), 98260133);
    region.record_plate(camera(3), plate.clone().into(), 98301294);
    region.record_plate(camera(196), plate.clone().into(), 98294018);
}

#[test]
fn compute_ticket_puts_the_earlier_sighting_first() {
    let plate: Plate = "A1".into();
    assert_eq!(
        Some(ticket("A1", 7, 2, 100, 1, 110, 36000)),
        Region::compute_ticket(camera_on(7, 1, 10), &plate, 110, 100, 2)
    );
    assert_eq!(
        Some(ticket("A1", 7, 1, 100, 2, 110, 36000)),
        Region::compute_ticket(camera_on(7, 1, 10), &plate, 100, 110, 2)
    );
}

#[test]
fn compute_ticket_wants_the_speed_strictly_above_the_limit() {
    let plate: Plate = "A1".into();
    // one mile in a minute is sixty miles per hour
    assert_eq!(None, Region::compute_ticket(camera_on(0, 1, 60), &plate, 60, 0, 0));
    assert_eq!(
        Some(ticket("A1", 0, 0, 0, 1, 59, 6102)),
        Region::compute_ticket(camera_on(0, 1, 60), &plate, 59, 0, 0)
    );
    assert_eq!(None, Region::compute_ticket(camera_on(0, 1, 60), &plate, 61, 0, 0));
    assert_eq!(None, Region::compute_ticket(camera_on(0, 5, 0), &plate, 61, 0, 5));
}

#[test]
fn compute_ticket_rounds_to_the_nearest_hundredth() {
    let plate: Plate = "A1".into();
    // 360000 / 7 = 51428.57..., 360000 / 11 = 32727.27...
    assert_eq!(
        Some(ticket("A1", 0, 0, 0, 1, 7, 51429)),
        Region::compute_ticket(camera_on(0, 1, 10), &plate, 7, 0, 0)
    );
    assert_eq!(
        Some(ticket("A1", 0, 0, 0, 1, 11, 32727)),
        Region::compute_ticket(camera_on(0, 1, 10), &plate, 11, 0, 0)
    );
    // 360000 / 64 = 5625 exactly, 360000 * 3 / 64 = 16875 exactly
    assert_eq!(
        Some(ticket("A1", 0, 0, 0, 3, 64, 16875)),
        Region::compute_ticket(camera_on(0, 3, 10), &plate, 64, 0, 0)
    );
    // 360000 / 2880000 = 0.125 hundredths is not above any limit but zero
    // 360000 * 1 / 720000 = 0.5 goes up to 1
    assert_eq!(
        Some(ticket("A1", 0, 0, 0, 1, 720000, 1)),
        Region::compute_ticket(camera_on(0, 1, 0), &plate, 720000, 0, 0)
    );
    // 360000 / 720001 is just below a half and goes down to 0
    assert_eq!(
        Some(ticket("A1", 0, 0, 0, 1, 720001, 0)),
        Region::compute_ticket(camera_on(0, 1, 0), &plate, 720001, 0, 0)
    );
}

#[test]
fn compute_ticket_holds_the_speed_to_sixteen_bits() {
    let plate: Plate = "A1".into();
    assert_eq!(
        Some(ticket("A1", 0, 0, 0, 1000, 1, 65535)),
        Region::compute_ticket(camera_on(0, 1000, 100), &plate, 1, 0, 0)
    );
    // 655.35 miles per hour is 65535 hundredths: 13107 miles in 72000 seconds
    assert_eq!(
        Some(ticket("A1", 0, 0, 0, 13107, 72000, 65535)),
        Region::compute_ticket(camera_on(0, 13107, 100), &plate, 72000, 0, 0)
    );
    assert_eq!(
        Some(ticket("A1", 0, 0, 0, 13106, 72000, 65530)),
        Region::compute_ticket(camera_on(0, 13106, 100), &plate, 72000, 0, 0)
    );
}

#[test]
fn compute_ticket_gives_none_for_one_moment() {
    let plate: Plate = "A1".into();
    assert_eq!(None, Region::compute_ticket(camera_on(0, 1, 0), &plate, 5, 5, 9));
    assert_eq!(None, Region::compute_ticket(camera_on(0, 1, 0), &plate, 5, 5, 1));
}

#[test]
fn basic_ticket() {
    let mut region = Region::new();
    let mut rx = region.register_dispatcher(dispatcher_for(&[123]));
    assert_eq!(Verdict::Cleared, region.record_plate(camera_on(123, 8, 60), "UN1X".into(), 0));
    let expected = ticket("UN1X", 123, 8, 0, 9, 45, 8000);
    assert_eq!(
        Verdict::Issued(expected.clone(), Delivery::Delivered { subscriber: 0, evicted: 0 }),
        region.record_plate(camera_on(123, 9, 60), "UN1X".into(), 45)
    );
    assert_eq!(Ok(expected), rx.try_recv());
    assert_eq!(Err(TryRecvError::Empty), rx.try_recv());
}

#[test]
fn dedup_within_a_day() {
    let mut region = Region::new();
    let mut rx = region.register_dispatcher(dispatcher_for(&[5]));
    region.record_plate(camera_on(5, 0, 60), "RE05BKG".into(), 0);
    let first = ticket("RE05BKG", 5, 0, 0, 10, 300, 12000);
    assert_eq!(
        Verdict::Issued(first.clone(), Delivery::Delivered { subscriber: 0, evicted: 0 }),
        region.record_plate(camera_on(5, 10, 60), "RE05BKG".into(), 300)
    );
    let second = ticket("RE05BKG", 5, 10, 300, 20, 600, 12000);
    assert_eq!(
        Verdict::Suppressed(second),
        region.record_plate(camera_on(5, 20, 60), "RE05BKG".into(), 600)
    );
    assert_eq!(Ok(first), rx.try_recv());
    assert_eq!(Err(TryRecvError::Empty), rx.try_recv());
}

#[test]
fn tickets_on_different_days_are_both_issued() {
    let mut region = Region::new();
    let mut rx = region.register_dispatcher(dispatcher_for(&[5]));
    region.record_plate(camera_on(5, 0, 60), "RE05BKG".into(), 0);
    region.record_plate(camera_on(5, 10, 60), "RE05BKG".into(), 300);
    region.record_plate(camera_on(5, 0, 60), "RE05BKG".into(), 86400);
    let second = ticket("RE05BKG", 5, 0, 86400, 10, 86700, 12000);
    assert_eq!(
        Verdict::Issued(second.clone(), Delivery::Delivered { subscriber: 0, evicted: 0 }),
        region.record_plate(camera_on(5, 10, 60), "RE05BKG".into(), 86700)
    );
    assert_eq!(Ok(ticket("RE05BKG", 5, 0, 0, 10, 300, 12000)), rx.try_recv());
    assert_eq!(Ok(second), rx.try_recv());
}

#[test]
fn a_ticket_over_midnight_takes_both_days() {
    let mut region = Region::new();
    region.record_plate(camera_on(5, 0, 60), "X".into(), 86300);
    let over = ticket("X", 5, 0, 86300, 10, 86500, 18000);
    assert_eq!(
        Verdict::Issued(over, Delivery::Buffered { evicted: 0 }),
        region.record_plate(camera_on(5, 10, 60), "X".into(), 86500)
    );
    // the day before and the day after are both taken now
    region.record_plate(camera_on(6, 0, 60), "X".into(), 100);
    assert_eq!(
        Verdict::Suppressed(ticket("X", 6, 0, 100, 10, 200, 36000)),
        region.record_plate(camera_on(6, 10, 60), "X".into(), 200)
    );
    region.record_plate(camera_on(6, 0, 60), "X".into(), 90000);
    assert_eq!(
        Verdict::Suppressed(ticket("X", 6, 0, 90000, 10, 90100, 36000)),
        region.record_plate(camera_on(6, 10, 60), "X".into(), 90100)
    );
    // another plate is not concerned
    region.record_plate(camera_on(6, 0, 60), "Y".into(), 90000);
    assert_eq!(
        Verdict::Issued(
            ticket("Y", 6, 0, 90000, 10, 90100, 36000),
            Delivery::Buffered { evicted: 0 }
        ),
        region.record_plate(camera_on(6, 10, 60), "Y".into(), 90100)
    );
}

#[test]
fn delayed_dispatcher() {
    let mut region = Region::new();
    region.record_plate(camera_on(7, 0, 60), "LATE".into(), 0);
    let expected = ticket("LATE", 7, 0, 0, 10, 300, 12000);
    assert_eq!(
        Verdict::Issued(expected.clone(), Delivery::Buffered { evicted: 0 }),
        region.record_plate(camera_on(7, 10, 60), "LATE".into(), 300)
    );
    let mut rx = region.register_dispatcher(dispatcher_for(&[7]));
    assert_eq!(Ok(expected), rx.try_recv());
    assert_eq!(Err(TryRecvError::Empty), rx.try_recv());
    // the subscription is live from then on
    region.record_plate(camera_on(7, 0, 60), "LATE".into(), 200000);
    let next = ticket("LATE", 7, 0, 200000, 10, 200300, 12000);
    assert_eq!(
        Verdict::Issued(next.clone(), Delivery::Delivered { subscriber: 0, evicted: 0 }),
        region.record_plate(camera_on(7, 10, 60), "LATE".into(), 200300)
    );
    assert_eq!(Ok(next), rx.try_recv());
}

#[test]
fn dispatcher_without_roads_gets_nothing() {
    let mut region = Region::new();
    let mut rx = region.register_dispatcher(dispatcher_for(&[]));
    region.record_plate(camera_on(7, 0, 60), "NONE".into(), 0);
    assert_eq!(
        Verdict::Issued(
            ticket("NONE", 7, 0, 0, 10, 300, 12000),
            Delivery::Buffered { evicted: 0 }
        ),
        region.record_plate(camera_on(7, 10, 60), "NONE".into(), 300)
    );
    assert!(rx.try_recv().is_err());
}

#[test]
fn observation_is_idempotent() {
    let mut region = Region::new();
    let mut rx = region.register_dispatcher(dispatcher_for(&[1]));
    assert_eq!(Verdict::Cleared, region.record_plate(camera_on(1, 0, 60), "TWICE".into(), 0));
    assert_eq!(Verdict::Duplicate, region.record_plate(camera_on(1, 0, 60), "TWICE".into(), 0));
    let expected = ticket("TWICE", 1, 0, 0, 10, 300, 12000);
    assert_eq!(
        Verdict::Issued(expected.clone(), Delivery::Delivered { subscriber: 0, evicted: 0 }),
        region.record_plate(camera_on(1, 10, 60), "TWICE".into(), 300)
    );
    assert_eq!(Verdict::Duplicate, region.record_plate(camera_on(1, 10, 60), "TWICE".into(), 300));
    assert_eq!(Verdict::Duplicate, region.record_plate(camera_on(1, 0, 60), "TWICE".into(), 0));
    assert_eq!(Ok(expected), rx.try_recv());
    assert_eq!(Err(TryRecvError::Empty), rx.try_recv());
}

#[test]
fn a_repeated_time_keeps_its_first_mile() {
    let mut region = Region::new();
    assert_eq!(Verdict::Cleared, region.record_plate(camera_on(1, 0, 60), "M".into(), 0));
    assert_eq!(Verdict::Duplicate, region.record_plate(camera_on(1, 500, 60), "M".into(), 0));
    // against mile 0 this is 120 miles per hour; against mile 500 it would be far more
    assert_eq!(
        Verdict::Issued(ticket("M", 1, 0, 0, 10, 300, 12000), Delivery::Buffered { evicted: 0 }),
        region.record_plate(camera_on(1, 10, 60), "M".into(), 300)
    );
}

#[test]
fn only_the_prior_sighting_is_consulted_when_there_is_one() {
    let mut region = Region::new();
    region.record_plate(camera_on(1, 0, 60), "P".into(), 0);
    region.record_plate(camera_on(1, 200, 60), "P".into(), 100000);
    assert_eq!(Verdict::Cleared, region.record_plate(camera_on(1, 1, 60), "P".into(), 99990));
}

#[test]
fn the_later_sighting_is_consulted_when_there_is_no_prior() {
    let mut region = Region::new();
    region.record_plate(camera_on(1, 10, 60), "Q".into(), 300);
    assert_eq!(
        Verdict::Issued(ticket("Q", 1, 0, 0, 10, 300, 12000), Delivery::Buffered { evicted: 0 }),
        region.record_plate(camera_on(1, 0, 60), "Q".into(), 0)
    );
}

#[test]
fn roads_and_plates_are_kept_apart() {
    let mut region = Region::new();
    region.record_plate(camera_on(1, 0, 60), "A".into(), 0);
    assert_eq!(Verdict::Cleared, region.record_plate(camera_on(2, 10, 60), "A".into(), 300));
    assert_eq!(Verdict::Cleared, region.record_plate(camera_on(1, 10, 60), "B".into(), 300));
    assert_eq!(
        Verdict::Issued(ticket("A", 1, 0, 0, 10, 300, 12000), Delivery::Buffered { evicted: 0 }),
        region.record_plate(camera_on(1, 10, 60), "A".into(), 300)
    );
}

#[test]
fn subscribers_take_turns() {
    let mut region = Region::new();
    let mut first = region.register_dispatcher(dispatcher_for(&[9]));
    let mut second = region.register_dispatcher(dispatcher_for(&[9]));
    region.record_plate(camera_on(9, 0, 60), "A".into(), 0);
    assert_eq!(
        Verdict::Issued(
            ticket("A", 9, 0, 0, 10, 300, 12000),
            Delivery::Delivered { subscriber: 0, evicted: 0 }
        ),
        region.record_plate(camera_on(9, 10, 60), "A".into(), 300)
    );
    region.record_plate(camera_on(9, 0, 60), "B".into(), 0);
    assert_eq!(
        Verdict::Issued(
            ticket("B", 9, 0, 0, 10, 300, 12000),
            Delivery::Delivered { subscriber: 1, evicted: 0 }
        ),
        region.record_plate(camera_on(9, 10, 60), "B".into(), 300)
    );
    region.record_plate(camera_on(9, 0, 60), "C".into(), 0);
    assert_eq!(
        Verdict::Issued(
            ticket("C", 9, 0, 0, 10, 300, 12000),
            Delivery::Delivered { subscriber: 0, evicted: 0 }
        ),
        region.record_plate(camera_on(9, 10, 60), "C".into(), 300)
    );
    assert_eq!(Ok(ticket("A", 9, 0, 0, 10, 300, 12000)), first.try_recv());
    assert_eq!(Ok(ticket("C", 9, 0, 0, 10, 300, 12000)), first.try_recv());
    assert_eq!(Ok(ticket("B", 9, 0, 0, 10, 300, 12000)), second.try_recv());
}

#[test]
fn a_subscriber_that_is_gone_is_evicted() {
    let mut region = Region::new();
    let gone = region.register_dispatcher(dispatcher_for(&[9]));
    let mut alive = region.register_dispatcher(dispatcher_for(&[9]));
    drop(gone);
    region.record_plate(camera_on(9, 0, 60), "A".into(), 0);
    assert_eq!(
        Verdict::Issued(
            ticket("A", 9, 0, 0, 10, 300, 12000),
            Delivery::Delivered { subscriber: 1, evicted: 1 }
        ),
        region.record_plate(camera_on(9, 10, 60), "A".into(), 300)
    );
    assert_eq!(Ok(ticket("A", 9, 0, 0, 10, 300, 12000)), alive.try_recv());
    drop(alive);
    region.record_plate(camera_on(9, 0, 60), "B".into(), 0);
    assert_eq!(
        Verdict::Issued(
            ticket("B", 9, 0, 0, 10, 300, 12000),
            Delivery::Buffered { evicted: 1 }
        ),
        region.record_plate(camera_on(9, 10, 60), "B".into(), 300)
    );
    let mut late = region.register_dispatcher(dispatcher_for(&[9]));
    assert_eq!(Ok(ticket("B", 9, 0, 0, 10, 300, 12000)), late.try_recv());
}

#[test]
fn a_dispatcher_of_several_roads_gets_the_tickets_of_each() {
    let mut region = Region::new();
    region.record_plate(camera_on(3, 0, 60), "A".into(), 0);
    region.record_plate(camera_on(3, 10, 60), "A".into(), 300);
    region.record_plate(camera_on(2, 0, 60), "B".into(), 0);
    region.record_plate(camera_on(2, 10, 60), "B".into(), 300);
    region.record_plate(camera_on(2, 0, 60), "C".into(), 0);
    region.record_plate(camera_on(2, 10, 60), "C".into(), 300);
    region.record_plate(camera_on(4, 0, 60), "D".into(), 0);
    region.record_plate(camera_on(4, 10, 60), "D".into(), 300);
    let mut rx = region.register_dispatcher(dispatcher_for(&[3, 2]));
    // road by road from the lowest, the oldest of each road first
    assert_eq!(Ok(ticket("B", 2, 0, 0, 10, 300, 12000)), rx.try_recv());
    assert_eq!(Ok(ticket("C", 2, 0, 0, 10, 300, 12000)), rx.try_recv());
    assert_eq!(Ok(ticket("A", 3, 0, 0, 10, 300, 12000)), rx.try_recv());
    assert_eq!(Err(TryRecvError::Empty), rx.try_recv());
    region.record_plate(camera_on(3, 0, 60), "E".into(), 0);
    region.record_plate(camera_on(3, 10, 60), "E".into(), 300);
    assert_eq!(Ok(ticket("E", 3, 0, 0, 10, 300, 12000)), rx.try_recv());
}

#[test]
fn subscribe_numbers_the_dispatchers() {
    let mut region = Region::new();
    let (tx, _rx) = unbounded_channel();
    assert_eq!((0, Enrollment::Subscribed), region.subscribe(&dispatcher_for(&[1]), tx));
    let (tx, _rx2) = unbounded_channel();
    assert_eq!((1, Enrollment::Subscribed), region.subscribe(&dispatcher_for(&[1, 2]), tx));
}

#[test]
fn enrolment_stalls_on_a_closed_channel() {
    let mut desks = Desks::new();
    assert_eq!(
        Delivery::Buffered { evicted: 0 },
        Region::dispatch_ticket(&mut desks, ticket("A", 2, 0, 0, 10, 300, 12000))
    );
    assert_eq!(
        Delivery::Buffered { evicted: 0 },
        Region::dispatch_ticket(&mut desks, ticket("B", 3, 0, 0, 10, 300, 12000))
    );
    let (tx, rx) = unbounded_channel();
    drop(rx);
    let roads = dispatcher_for(&[2, 3]).roads;
    assert_eq!(Enrollment::Stalled { road: 2, sent: 0 }, Region::enroll(&mut desks, &roads, 0, tx));
    // nothing was lost, and nobody is subscribed
    let (tx, mut rx) = unbounded_channel();
    assert_eq!(Enrollment::Subscribed, Region::enroll(&mut desks, &roads, 1, tx));
    assert_eq!(Ok(ticket("A", 2, 0, 0, 10, 300, 12000)), rx.try_recv());
    assert_eq!(Ok(ticket("B", 3, 0, 0, 10, 300, 12000)), rx.try_recv());
    assert_eq!(
        Delivery::Delivered { subscriber: 1, evicted: 0 },
        Region::dispatch_ticket(&mut desks, ticket("C", 3, 0, 0, 10, 300, 12000))
    );
}

#[test]
fn record_observation_gives_the_candidate() {
    let mut records = Records::new();
    let first = Observation { camera: camera_on(1, 0, 60), plate: "A".into(), time: 0 };
    let second = Observation { camera: camera_on(1, 10, 60), plate: "A".into(), time: 300 };
    assert_eq!(None, Region::record_observation(&mut records, &first));
    assert!(records.holds(&"A".into(), 1, 0));
    assert!(!records.holds(&"A".into(), 1, 300));
    assert!(!records.holds(&"A".into(), 2, 0));
    assert!(!records.holds(&"B".into(), 1, 0));
    assert_eq!(
        Some(ticket("A", 1, 0, 0, 10, 300, 12000)),
        Region::record_observation(&mut records, &second)
    );
    assert_eq!(None, Region::record_observation(&mut records, &second));
    assert!(records.holds(&"A".into(), 1, 300));
}

#[test]
fn assess_violation_rations_by_day() {
    let mut issued = IssuedDays::new();
    assert!(Region::assess_violation(&mut issued, &ticket("A", 1, 0, 86399, 1, 86400, 100)));
    assert!(!Region::assess_violation(&mut issued, &ticket("A", 1, 0, 0, 1, 10, 100)));
    assert!(!Region::assess_violation(&mut issued, &ticket("A", 1, 0, 172799, 1, 172800, 100)));
    assert!(Region::assess_violation(&mut issued, &ticket("A", 1, 0, 172800, 1, 172801, 100)));
    assert!(Region::assess_violation(&mut issued, &ticket("B", 1, 0, 0, 1, 10, 100)));
}

#[test]
fn days_are_added_and_found() {
    let mut days = BTreeSet::new();
    assert!(all_free(&days, 0, 100));
    add_days(&mut days, 3, 5);
    assert_eq!(BTreeSet::from([3, 4, 5]), days);
    assert!(all_free(&days, 0, 2));
    assert!(!all_free(&days, 0, 3));
    assert!(!all_free(&days, 5, 9));
    assert!(all_free(&days, 6, 9));
    assert!(all_free(&days, 9, 6));
    add_days(&mut days, 9, 6);
    assert_eq!(BTreeSet::from([3, 4, 5]), days);
}

#[test]
fn bytes_are_copied_and_compared() {
    let bytes: Vec<u8> = vec![1, 2, 3];
    assert_eq!(bytes, copy_bytes(&bytes));
    assert!(same_bytes(&bytes, &vec![1, 2, 3]));
    assert!(!same_bytes(&bytes, &vec![1, 2]));
    assert!(!same_bytes(&bytes, &vec![1, 2, 4]));
    assert!(same_bytes(&vec![], &vec![]));
    let t = ticket("A", 1, 2, 3, 4, 5, 6);
    assert_eq!(t, copy_ticket(&t));
}

#[test]
fn roads_come_out_in_rising_order() {
    assert_eq!(vec![2u16, 3, 500], sorted_roads(&dispatcher_for(&[500, 2, 3, 2]).roads));
    assert_eq!(Vec::<u16>::new(), sorted_roads(&dispatcher_for(&[]).roads));
    assert_eq!(Dispatcher::default(), dispatcher_for(&[]));
}

fn desk_with(road: u16, waiting: &[&str], subscribers: &[u64]) -> Desk {
    Desk {
        road,
        pending: waiting.iter().map(|p| ticket(p, road, 0, 0, 10, 300, 12000)).collect(),
        subscribers: subscribers
            .iter()
            .map(|id| Subscriber { id: *id, tx: unbounded_channel().0 })
            .collect(),
    }
}

fn queue(desk: &Desk) -> Vec<u64> {
    desk.subscribers.iter().map(|s| s.id).collect()
}

fn waiting(desk: &Desk) -> Vec<Vec<u8>> {
    desk.pending.iter().map(|t| t.plate.clone()).collect()
}

#[test]
fn a_subscriber_that_took_the_ticket_goes_to_the_back() {
    let mut desk = desk_with(4, &[], &[7, 8, 9]);
    assert_eq!(None, desk.served(Ok(())));
    assert_eq!(vec![8, 9, 7], queue(&desk));
    assert_eq!(None, desk.served(Ok(())));
    assert_eq!(vec![9, 7, 8], queue(&desk));
    let mut alone = desk_with(4, &[], &[7]);
    assert_eq!(None, alone.served(Ok(())));
    assert_eq!(vec![7], queue(&alone));
}

#[test]
fn a_subscriber_that_did_not_take_the_ticket_leaves() {
    let mut desk = desk_with(4, &[], &[7, 8, 9]);
    let refused = ticket("A", 4, 0, 0, 10, 300, 12000);
    assert_eq!(Some(refused.clone()), desk.served(Err(refused.clone())));
    assert_eq!(vec![8, 9], queue(&desk));
    assert_eq!(Some(refused.clone()), desk.served(Err(refused.clone())));
    assert_eq!(Some(refused.clone()), desk.served(Err(refused)));
    assert_eq!(Vec::<u64>::new(), queue(&desk));
    assert_eq!(4, desk.road);
}

#[test]
fn the_oldest_waiting_ticket_is_the_next() {
    let mut desk = desk_with(4, &["A", "B"], &[]);
    assert_eq!(Some(ticket("A", 4, 0, 0, 10, 300, 12000)), desk.next_waiting());
    assert_eq!(vec![b"B".to_vec()], waiting(&desk));
    assert_eq!(Some(ticket("B", 4, 0, 0, 10, 300, 12000)), desk.next_waiting());
    assert_eq!(None, desk.next_waiting());
    assert_eq!(None, desk.next_waiting());
    assert_eq!(Vec::<Vec<u8>>::new(), waiting(&desk));
}

#[test]
fn a_ticket_that_was_not_taken_waits_again_as_the_first() {
    let mut desk = desk_with(4, &["B", "C"], &[]);
    assert!(desk.handed(Ok(())));
    assert_eq!(vec![b"B".to_vec(), b"C".to_vec()], waiting(&desk));
    assert!(!desk.handed(Err(ticket("A", 4, 0, 0, 10, 300, 12000))));
    assert_eq!(vec![b"A".to_vec(), b"B".to_vec(), b"C".to_vec()], waiting(&desk));
    assert_eq!(Some(ticket("A", 4, 0, 0, 10, 300, 12000)), desk.next_waiting());
}

#[test]
fn desks_are_taken_and_put_by_road() {
    let mut desks = Desks::new();
    assert!(!desks.has(4));
    let fresh = desks.take(4);
    assert_eq!(4, fresh.road);
    assert!(fresh.pending.is_empty() && fresh.subscribers.is_empty());
    assert!(!desks.has(4));
    desks.put(desk_with(4, &["A"], &[]));
    desks.put(desk_with(2, &[], &[5]));
    assert!(desks.has(4) && desks.has(2) && !desks.has(3));
    let taken = desks.take(4);
    assert_eq!(vec![b"A".to_vec()], waiting(&taken));
    assert!(!desks.has(4) && desks.has(2));
    desks.put(desk_with(2, &[], &[6, 7]));
    assert_eq!(vec![6, 7], queue(&desks.take(2)));
    let empty = Desk::new(9);
    assert_eq!((9, 0, 0), (empty.road, empty.pending.len(), empty.subscribers.len()));
    assert_eq!(VecDeque::<Ticket>::new(), empty.pending);
}

#[test]
fn tracks_stand_in_the_order_of_plate_and_road() {
    let mut records = Records::new();
    for (plate, road) in [("B", 2u16), ("A", 9), ("B", 1), ("AB", 3), ("A", 2), ("", 7)] {
        let obs = Observation { camera: camera_on(road, 0, 60), plate: plate.into(), time: 5 };
        assert_eq!(None, Region::record_observation(&mut records, &obs));
    }
    let keys: Vec<(Vec<u8>, u16)> =
        records.tracks.iter().map(|t| (t.plate.clone(), t.road)).collect();
    assert_eq!(
        vec![
            (b"".to_vec(), 7),
            (b"A".to_vec(), 2),
            (b"A".to_vec(), 9),
            (b"AB".to_vec(), 3),
            (b"B".to_vec(), 1),
            (b"B".to_vec(), 2)
        ],
        keys
    );
    assert_eq!((2, true), records.place(&"A".into(), 9));
    assert_eq!((2, false), records.place(&"A".into(), 5));
    assert_eq!((0, false), records.place(&"".into(), 0));
    assert_eq!((6, false), records.place(&"C".into(), 0));
    assert_eq!(Some(4), records.find(&"B".into(), 1));
    assert_eq!(None, records.find(&"B".into(), 3));
}

#[test]
fn sightings_stand_in_the_order_of_their_times() {
    let mut records = Records::new();
    for time in [50u32, 10, 30, 40, 20, 30] {
        let obs = Observation { camera: camera_on(1, 0, 60), plate: "A".into(), time };
        Region::record_observation(&mut records, &obs);
    }
    let track = &records.tracks[0];
    let times: Vec<u32> = track.sightings.iter().map(|s| s.time).collect();
    assert_eq!(vec![10, 20, 30, 40, 50], times);
    assert_eq!(0, track.slot(0));
    assert_eq!(0, track.slot(10));
    assert_eq!(1, track.slot(11));
    assert_eq!(2, track.slot(30));
    assert_eq!(4, track.slot(50));
    assert_eq!(5, track.slot(51));
}

#[test]
fn ticketed_plates_stand_in_the_order_of_the_dictionary() {
    let mut issued = IssuedDays::new();
    for plate in ["B", "A", "AB", "C", ""] {
        assert!(Region::assess_violation(&mut issued, &ticket(plate, 1, 0, 0, 1, 10, 100)));
    }
    let plates: Vec<Vec<u8>> = issued.plates.iter().map(|p| p.plate.clone()).collect();
    assert_eq!(
        vec![b"".to_vec(), b"A".to_vec(), b"AB".to_vec(), b"B".to_vec(), b"C".to_vec()],
        plates
    );
    assert_eq!((3, true), issued.place(&"B".into()));
    assert_eq!((3, false), issued.place(&"AC".into()));
    assert_eq!((5, false), issued.place(&"D".into()));
}
