//! The vocabulary of the speed-enforcement server, the arithmetic that
//! turns two sightings of a plate into a ticket, and the region: the
//! bookkeeper that takes in sightings and hands out tickets.

use vstd::prelude::*;
use std::collections::BTreeSet;
use tokio::sync::mpsc::UnboundedReceiver;
use tokio::sync::mpsc::UnboundedSender;
use crate::bytes::copy_bytes;
use crate::speed::desks::{delivery_fits, desk_of, enrolled, enrollment_fits, open_channel,
    routed, Board, Delivery, Desks, Enrollment};
use crate::speed::history::{blank, issue, lemma_observe_sound, observe, on_record, put_forward,
    sound, Books, Sight};
use crate::speed::issued::{days_free, IssuedDays};
use crate::speed::records::Records;

verus! {

/// Seconds since a fixed epoch.
pub type Timestamp = u32;

/// A road identifier.
pub type Road = u16;

/// A mile marker along a road.
pub type Mile = u16;

/// A speed: miles per hour as a camera's limit, hundredths of miles per
/// hour on a ticket.
pub type Speed = u16;

/// The text of a licence plate, as the bytes that arrived on the wire.
pub type Plate = Vec<u8>;

/// The number of seconds in a day, the unit by which tickets are rationed.
pub const SECONDS_PER_DAY: u32 = 86400;

/// The largest speed a ticket can carry, in hundredths of miles per hour.
pub const MAX_TICKET_SPEED: u16 = 65535;

/// A camera: the road it watches, where it stands, and the limit there in
/// miles per hour.
#[derive(Clone, Copy, Debug, PartialEq, Eq)]
pub struct Camera {
    pub road: Road,
    pub mile: Mile,
    pub limit: Speed,
}

/// A dispatcher: the set of roads whose tickets it takes. The set may be
/// empty.
#[derive(Clone, Debug, PartialEq, Eq)]
pub struct Dispatcher {
    pub roads: BTreeSet<Road>,
}

impl Default for Dispatcher {
    fn default() -> (d: Dispatcher)
        ensures
            d.roads@ == Set::<Road>::empty(),
    {
        Dispatcher { roads: BTreeSet::new() }
    }
}

/// A ticket: a plate, a road, and two sightings ordered by time, with the
/// average speed between them in hundredths of miles per hour.
#[derive(Clone, Debug, PartialEq, Eq)]
pub struct Ticket {
    pub plate: Plate,
    pub road: Road,
    pub mile1: Mile,
    pub timestamp1: Timestamp,
    pub mile2: Mile,
    pub timestamp2: Timestamp,
    pub speed: Speed,
}

/// What a [`Ticket`] says, with the plate as a sequence of bytes.
pub struct TicketView {
    pub plate: Seq<u8>,
    pub road: Road,
    pub mile1: Mile,
    pub timestamp1: Timestamp,
    pub mile2: Mile,
    pub timestamp2: Timestamp,
    pub speed: Speed,
}

impl View for Ticket {
    type V = TicketView;

    open spec fn view(&self) -> TicketView {
        TicketView {
            plate: self.plate@,
            road: self.road,
            mile1: self.mile1,
            timestamp1: self.timestamp1,
            mile2: self.mile2,
            timestamp2: self.timestamp2,
            speed: self.speed,
        }
    }
}

/// One sighting of a plate by a camera.
#[derive(Clone, Debug)]
pub struct Observation {
    pub camera: Camera,
    pub plate: Plate,
    pub time: Timestamp,
}

/// A day: a count of whole days since the epoch.
pub type Day = u32;

/// The day a timestamp falls on.
pub open spec fn day_of(t: Timestamp) -> Day {
    (t / SECONDS_PER_DAY) as u32
}

/// Whether `found` is the ticket that `expected` describes, or both are
/// none.
pub open spec fn is_ticket(found: Option<Ticket>, expected: Option<TicketView>) -> bool {
    match found {
        Some(t) => expected == Some(t@),
        None => expected is None,
    }
}

/// The distance between two mile markers.
pub open spec fn miles_between(a: Mile, b: Mile) -> nat {
    if a <= b {
        (b - a) as nat
    } else {
        (a - b) as nat
    }
}

/// The time between two timestamps, in seconds.
pub open spec fn seconds_between(a: Timestamp, b: Timestamp) -> nat {
    if a <= b {
        (b - a) as nat
    } else {
        (a - b) as nat
    }
}

/// Whether covering `miles` in `seconds` is faster than `limit` miles per
/// hour: the average speed is `3600 * miles / seconds`, compared exactly.
pub open spec fn exceeds_limit(miles: nat, seconds: nat, limit: Speed) -> bool {
    seconds > 0 && 3600 * miles > limit * seconds
}

/// The average speed over `miles` in `seconds`, in hundredths of miles per
/// hour, rounded to the nearest integer with halves rounded up.
pub open spec fn rounded_speed(miles: nat, seconds: nat) -> nat
    recommends
        seconds > 0,
{
    ((2 * 360000 * miles + seconds) / (2 * seconds)) as nat
}

/// The speed a ticket carries: [`rounded_speed`], held to what 16 bits can
/// say.
pub open spec fn ticket_speed(miles: nat, seconds: nat) -> Speed {
    if rounded_speed(miles, seconds) >= MAX_TICKET_SPEED {
        MAX_TICKET_SPEED
    } else {
        rounded_speed(miles, seconds) as u16
    }
}

/// The ticket, if any, that two sightings of `plate` on one road give rise
/// to: one by `camera` at `now`, the other at mile `there` at `then`.
/// There is none unless the times differ and the average speed between the
/// sightings is strictly above the camera's limit. The earlier sighting
/// comes first on the ticket.
pub open spec fn ticket_between(
    camera: Camera,
    plate: Seq<u8>,
    now: Timestamp,
    then: Timestamp,
    there: Mile,
) -> Option<TicketView> {
    let miles = miles_between(camera.mile, there);
    let seconds = seconds_between(now, then);
    if exceeds_limit(miles, seconds, camera.limit) {
        if then < now {
            Some(
                TicketView {
                    plate,
                    road: camera.road,
                    mile1: there,
                    timestamp1: then,
                    mile2: camera.mile,
                    timestamp2: now,
                    speed: ticket_speed(miles, seconds),
                },
            )
        } else {
            Some(
                TicketView {
                    plate,
                    road: camera.road,
                    mile1: camera.mile,
                    timestamp1: now,
                    mile2: there,
                    timestamp2: then,
                    speed: ticket_speed(miles, seconds),
                },
            )
        }
    } else {
        None
    }
}

/// [`rounded_speed`] is the integer nearest to the exact speed
/// `360000 * miles / seconds`: it lies within half a unit of it, and a
/// speed exactly halfway between two integers goes to the higher.
pub proof fn lemma_rounded_speed_is_nearest(miles: nat, seconds: nat)
    requires
        seconds > 0,
    ensures
        2 * rounded_speed(miles, seconds) * seconds <= 2 * 360000 * miles + seconds,
        2 * 360000 * miles + seconds < 2 * (rounded_speed(miles, seconds) + 1) * seconds,
{
    let n = (2 * 360000 * miles + seconds) as int;
    let d = (2 * seconds) as int;
    vstd::arithmetic::div_mod::lemma_fundamental_div_mod(n, d);
    vstd::arithmetic::div_mod::lemma_mod_bound(n, d);
    vstd::arithmetic::div_mod::lemma_div_pos_is_pos(n, d);
    let q = n / d;
    assert(n == d * q + n % d);
    assert(d * q == 2 * q * seconds) by (nonlinear_arith)
        requires
            d == 2 * seconds,
    ;
    assert(2 * (q + 1) * seconds == 2 * q * seconds + d) by (nonlinear_arith)
        requires
            d == 2 * seconds,
    ;
}

impl View for Observation {
    type V = Sight;

    open spec fn view(&self) -> Sight {
        Sight { camera: self.camera, plate: self.plate@, time: self.time }
    }
}

/// The central bookkeeper of the speed-enforcement server. It takes in
/// the observations of the cameras, decides which of them amount to a
/// ticket, sees to it that no plate gets two tickets for one day, and
/// hands each ticket to a dispatcher of its road, or keeps it until there
/// is one.
pub struct Region {
    records: Records,
    issued: IssuedDays,
    desks: Desks,
    next_subscriber: u64,
    emitted: Ghost<Seq<TicketView>>,
}

/// What a [`Region`] holds.
pub struct RegionView {
    /// The observations, the ticketed days and the tickets issued.
    pub books: Books,
    /// The waiting tickets and the subscribers of each road.
    pub board: Board,
    /// The number that the next dispatcher will be known under.
    pub next_subscriber: u64,
}

impl View for Region {
    type V = RegionView;

    closed spec fn view(&self) -> RegionView {
        RegionView {
            books: Books { log: self.records@, issued: self.issued@, emitted: self.emitted@ },
            board: self.desks@,
            next_subscriber: self.next_subscriber,
        }
    }
}

/// What became of an observation.
#[derive(Clone, Debug, PartialEq, Eq)]
pub enum Verdict {
    /// The sighting was on record already; nothing changed.
    Duplicate,
    /// The sighting was recorded and gave rise to no ticket.
    Cleared,
    /// The sighting was recorded. It gave rise to this ticket, which was
    /// not issued because its plate already has a ticket for one of its
    /// days.
    Suppressed(Ticket),
    /// The sighting was recorded, and this ticket was issued and left the
    /// region in this way.
    Issued(Ticket, Delivery),
}

/// The number after `id`, as far as there is one.
pub open spec fn bumped(id: u64) -> u64 {
    if id < u64::MAX {
        (id + 1) as u64
    } else {
        id
    }
}

/// A copy of a ticket.
pub fn copy_ticket(ticket: &Ticket) -> (copy: Ticket)
    ensures
        copy@ == ticket@,
{
    Ticket {
        plate: copy_bytes(&ticket.plate),
        road: ticket.road,
        mile1: ticket.mile1,
        timestamp1: ticket.timestamp1,
        mile2: ticket.mile2,
        timestamp2: ticket.timestamp2,
        speed: ticket.speed,
    }
}

impl Region {
    /// The region is in order: its collections are well formed and its
    /// books are sound.
    pub closed spec fn wf(&self) -> bool {
        &&& self.records.wf()
        &&& self.issued.wf()
        &&& self.desks.wf()
        &&& sound(self@.books)
    }

    /// The books of a region that is in order are sound: every ticket it
    /// issued is borne out by its log, the days on record for a plate are
    /// those that its tickets cover, and no two tickets of a plate share a
    /// day.
    pub proof fn lemma_sound(&self)
        requires
            self.wf(),
        ensures
            sound(self@.books),
    {
    }

    /// In a region that is in order, tickets wait for a road only while
    /// it has no subscriber.
    pub proof fn lemma_settled(&self, road: Road)
        requires
            self.wf(),
        ensures
            desk_of(self@.board, road).pending.len() > 0 ==> desk_of(
                self@.board,
                road,
            ).subscribers.len() == 0,
    {
        self.desks.lemma_settled(road);
    }

    /// A region that has seen nothing yet.
    pub fn new() -> (region: Region)
        ensures
            region.wf(),
            region@.books == blank(),
            region@.board == Board::empty(),
            region@.next_subscriber == 0,
    {
        Region {
            records: Records::new(),
            issued: IssuedDays::new(),
            desks: Desks::new(),
            next_subscriber: 0,
            emitted: Ghost(Seq::empty()),
        }
    }

    /// Takes in the sighting of `plate` by `camera` at `time`. The books
    /// change as [`observe`] says. A ticket that is issued is routed to
    /// the subscribers of its road: see [`Region::dispatch_ticket`].
    pub fn record_plate(&mut self, camera: Camera, plate: Plate, time: Timestamp) -> (verdict:
        Verdict)
        requires
            old(self).wf(),
        ensures
            final(self).wf(),
            final(self)@.books == observe(
                old(self)@.books,
                Sight { camera, plate: plate@, time },
            ),
            final(self)@.next_subscriber == old(self)@.next_subscriber,
            match verdict {
                Verdict::Duplicate => {
                    &&& on_record(old(self)@.books.log, Sight { camera, plate: plate@, time })
                    &&& final(self)@.board == old(self)@.board
                },
                Verdict::Cleared => {
                    &&& !on_record(old(self)@.books.log, Sight { camera, plate: plate@, time })
                    &&& put_forward(old(self)@.books.log, Sight { camera, plate: plate@, time })
                        is None
                    &&& final(self)@.board == old(self)@.board
                },
                Verdict::Suppressed(ticket) => {
                    &&& put_forward(old(self)@.books.log, Sight { camera, plate: plate@, time })
                        == Some(ticket@)
                    &&& !days_free(old(self)@.books.issued, ticket@)
                    &&& final(self)@.board == old(self)@.board
                },
                Verdict::Issued(ticket, delivery) => {
                    &&& issue(old(self)@.books, Sight { camera, plate: plate@, time }) == Some(
                        ticket@,
                    )
                    &&& delivery_fits(old(self)@.board, ticket.road, delivery)
                    &&& final(self)@.board == routed(old(self)@.board, ticket@, delivery)
                },
            },
    {
        let ghost sight = Sight { camera, plate: plate@, time };
        proof {
            lemma_observe_sound(self@.books, sight);
        }
        if self.records.holds(&plate, camera.road, time) {
            return Verdict::Duplicate;
        }
        let obs = Observation { camera, plate, time };
        match Region::record_observation(&mut self.records, &obs) {
            None => Verdict::Cleared,
            Some(ticket) => {
                if Region::assess_violation(&mut self.issued, &ticket) {
                    let report = copy_ticket(&ticket);
                    self.emitted = Ghost(self.emitted@.push(ticket@));
                    let delivery = Region::dispatch_ticket(&mut self.desks, ticket);
                    Verdict::Issued(report, delivery)
                } else {
                    Verdict::Suppressed(ticket)
                }
            },
        }
    }

    /// Enrols a dispatcher that is reached through `tx`, under the next
    /// free number, which is returned with the outcome: see
    /// [`Region::enroll`].
    pub fn subscribe(&mut self, dispatcher: &Dispatcher, tx: UnboundedSender<Ticket>) -> (res: (
        u64,
        Enrollment,
    ))
        requires
            old(self).wf(),
        ensures
            final(self).wf(),
            res.0 == old(self)@.next_subscriber,
            final(self)@.books == old(self)@.books,
            final(self)@.next_subscriber == bumped(old(self)@.next_subscriber),
            enrollment_fits(old(self)@.board, dispatcher.roads@, res.1),
            final(self)@.board == enrolled(old(self)@.board, dispatcher.roads@, res.0, res.1),
    {
        let id = self.next_subscriber;
        if self.next_subscriber < u64::MAX {
            self.next_subscriber += 1;
        }
        let outcome = Region::enroll(&mut self.desks, &dispatcher.roads, id, tx);
        (id, outcome)
    }

    /// Registers a dispatcher and returns the receiving end of the channel
    /// on which its tickets arrive. The tickets that waited for its roads
    /// are in the channel already, and the dispatcher is subscribed to its
    /// roads, unless the channel refused one of them: see
    /// [`Region::subscribe`].
    pub fn register_dispatcher(&mut self, dispatcher: Dispatcher) -> (rx: UnboundedReceiver<
        Ticket,
    >)
        requires
            old(self).wf(),
        ensures
            final(self).wf(),
            final(self)@.books == old(self)@.books,
            final(self)@.next_subscriber == bumped(old(self)@.next_subscriber),
            exists|outcome: Enrollment|
                enrollment_fits(old(self)@.board, dispatcher.roads@, outcome) && final(self)@.board
                    == #[trigger] enrolled(
                    old(self)@.board,
                    dispatcher.roads@,
                    old(self)@.next_subscriber,
                    outcome,
                ),
    {
        let (tx, rx) = open_channel();
        let (id, outcome) = self.subscribe(&dispatcher, tx);
        rx
    }

    /// The ticket, if any, that follows from a sighting of `plate` by
    /// `camera` at `now` and another on the same road at mile `there` at
    /// `then`: see [`ticket_between`].
    pub fn compute_ticket(
        camera: Camera,
        plate: &Plate,
        now: Timestamp,
        then: Timestamp,
        there: Mile,
    ) -> (res: Option<Ticket>)
        ensures
            is_ticket(res, ticket_between(camera, plate@, now, then, there)),
    {
        let here = camera.mile;
        let miles: u64 = if here <= there {
            (there - here) as u64
        } else {
            (here - there) as u64
        };
        let seconds: u64 = if now <= then {
            (then - now) as u64
        } else {
            (now - then) as u64
        };
        let limit: u64 = camera.limit as u64;
        assert(limit * seconds <= 65535 * 0xffff_ffff) by (nonlinear_arith)
            requires
                limit <= 65535,
                seconds <= 0xffff_ffff,
        ;
        if seconds == 0 || 3600 * miles <= limit * seconds {
            return None;
        }
        let rounded: u64 = (720000 * miles + seconds) / (2 * seconds);
        let speed: Speed = if rounded >= MAX_TICKET_SPEED as u64 {
            MAX_TICKET_SPEED
        } else {
            rounded as u16
        };
        let (mile1, mile2, timestamp1, timestamp2) = if then < now {
            (there, here, then, now)
        } else {
            (here, there, now, then)
        };
        Some(
            Ticket {
                plate: copy_bytes(plate),
                road: camera.road,
                mile1,
                timestamp1,
                mile2,
                timestamp2,
                speed,
            },
        )
    }
}

} // verus!
