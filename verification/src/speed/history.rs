//! What the region has on its books, as a mathematical value: the log of
//! observations, the ticketed days of each plate, and the tickets issued
//! so far. Observing is a function on the books, and the laws of the
//! region are stated and proved of it here.

use vstd::prelude::*;
use crate::speed::domain::{miles_between, ticket_between, ticket_speed, Camera,
    Day, Mile, Road, TicketView, Timestamp};
use crate::speed::issued::{assessed, days_free, days_of, span, Issued};
use crate::speed::records::{candidate, lemma_later_is_least_above,
    lemma_prior_is_greatest_below, logged, neighbor, timeline_of, Log};

verus! {

/// What an observation says, with the plate as a sequence of bytes.
pub struct Sight {
    pub camera: Camera,
    pub plate: Seq<u8>,
    pub time: Timestamp,
}

/// The books of a region.
pub struct Books {
    /// The mile at which each plate was seen on each road at each time.
    pub log: Log,
    /// The days that the tickets of each plate cover.
    pub issued: Issued,
    /// The tickets issued so far, oldest first.
    pub emitted: Seq<TicketView>,
}

/// Books with nothing on them.
pub open spec fn blank() -> Books {
    Books { log: Map::empty(), issued: Map::empty(), emitted: Seq::empty() }
}

/// Whether the log holds a sighting of the plate on the road at the time
/// of `sight`.
pub open spec fn on_record(log: Log, sight: Sight) -> bool {
    timeline_of(log, sight.plate, sight.camera.road).contains_key(sight.time)
}

/// The ticket that `sight` puts forward, if any: none where the sighting
/// is on record already, else the one against its neighbor in time on the
/// same road, where that neighbor exists and the speed between them is
/// above the camera's limit.
pub open spec fn put_forward(log: Log, sight: Sight) -> Option<TicketView> {
    if on_record(log, sight) {
        None
    } else {
        candidate(
            timeline_of(log, sight.plate, sight.camera.road),
            sight.camera,
            sight.plate,
            sight.time,
        )
    }
}

/// The ticket that `sight` leads the region to issue, if any: the one it
/// puts forward, where the plate has no ticket yet on any day that it
/// covers.
pub open spec fn issue(books: Books, sight: Sight) -> Option<TicketView> {
    match put_forward(books.log, sight) {
        Some(ticket) => if days_free(books.issued, ticket) {
            Some(ticket)
        } else {
            None
        },
        None => None,
    }
}

/// The books after `sight` was observed. The sighting is entered into the
/// log unless it is there already. A ticket that is issued is added to
/// the tickets, and its days to the days of its plate.
pub open spec fn observe(books: Books, sight: Sight) -> Books {
    let log = logged(books.log, sight.plate, sight.camera.road, sight.time, sight.camera.mile);
    match issue(books, sight) {
        Some(ticket) => Books {
            log,
            issued: assessed(books.issued, ticket),
            emitted: books.emitted.push(ticket),
        },
        None => Books { log, issued: books.issued, emitted: books.emitted },
    }
}

/// The books after the observations of `sights`, in their order.
pub open spec fn observe_all(books: Books, sights: Seq<Sight>) -> Books
    decreases sights.len(),
{
    if sights.len() == 0 {
        books
    } else {
        observe(observe_all(books, sights.drop_last()), sights.last())
    }
}

/// Whether `ticket` is borne out by the log: its two sightings are on
/// record with their miles, the first is earlier than the second, and its
/// speed is the average speed between them, rounded.
pub open spec fn genuine(log: Log, ticket: TicketView) -> bool {
    let timeline = timeline_of(log, ticket.plate, ticket.road);
    &&& ticket.timestamp1 < ticket.timestamp2
    &&& timeline.contains_key(ticket.timestamp1)
    &&& timeline[ticket.timestamp1] == ticket.mile1
    &&& timeline.contains_key(ticket.timestamp2)
    &&& timeline[ticket.timestamp2] == ticket.mile2
    &&& ticket.speed == ticket_speed(
        miles_between(ticket.mile1, ticket.mile2),
        (ticket.timestamp2 - ticket.timestamp1) as nat,
    )
}

/// Every ticket issued is borne out by the log.
pub open spec fn grounded(books: Books) -> bool {
    forall|i: int| 0 <= i < books.emitted.len() ==> genuine(books.log, #[trigger] books.emitted[i])
}

/// Whether one of the tickets issued is for `plate` and covers `day`.
pub open spec fn ticketed(emitted: Seq<TicketView>, plate: Seq<u8>, day: Day) -> bool {
    exists|i: int|
        0 <= i < emitted.len() && (#[trigger] emitted[i]).plate == plate && span(
            emitted[i],
        ).contains(day)
}

/// The days on record for each plate are exactly the days that the
/// tickets issued for it cover.
pub open spec fn covered(books: Books) -> bool {
    forall|plate: Seq<u8>, day: Day|
        #[trigger] days_of(books.issued, plate).contains(day) <==> ticketed(
            books.emitted,
            plate,
            day,
        )
}

/// No two tickets issued for one plate cover a day in common.
pub open spec fn sparing(emitted: Seq<TicketView>) -> bool {
    forall|i: int, j: int|
        0 <= i < emitted.len() && 0 <= j < emitted.len() && i != j && (#[trigger] emitted[i]).plate
            == (#[trigger] emitted[j]).plate ==> span(emitted[i]).disjoint(span(emitted[j]))
}

/// The books are sound: the tickets are borne out by the log, they
/// account for the days on record, and they spare each plate a second
/// ticket for any day.
pub open spec fn sound(books: Books) -> bool {
    &&& grounded(books)
    &&& covered(books)
    &&& sparing(books.emitted)
}

/// A sighting that is entered into the log leaves what was there as it
/// was.
pub proof fn lemma_logged_keeps(
    log: Log,
    plate: Seq<u8>,
    road: Road,
    t: Timestamp,
    mile: Mile,
    other_plate: Seq<u8>,
    other_road: Road,
    other_t: Timestamp,
)
    requires
        timeline_of(log, other_plate, other_road).contains_key(other_t),
    ensures
        timeline_of(logged(log, plate, road, t, mile), other_plate, other_road).contains_key(
            other_t,
        ),
        timeline_of(logged(log, plate, road, t, mile), other_plate, other_road)[other_t]
            == timeline_of(log, other_plate, other_road)[other_t],
{
}

/// The ticket that a sighting puts forward is borne out by the log once
/// the sighting is entered.
pub proof fn lemma_put_forward_genuine(log: Log, sight: Sight)
    requires
        put_forward(log, sight) is Some,
    ensures
        genuine(
            logged(log, sight.plate, sight.camera.road, sight.time, sight.camera.mile),
            put_forward(log, sight)->0,
        ),
        put_forward(log, sight)->0.plate == sight.plate,
        put_forward(log, sight)->0.road == sight.camera.road,
{
    let timeline = timeline_of(log, sight.plate, sight.camera.road);
    lemma_prior_is_greatest_below(timeline, sight.time);
    lemma_later_is_least_above(timeline, sight.time);
    let near = neighbor(timeline, sight.time)->0;
    let ticket = ticket_between(sight.camera, sight.plate, sight.time, near, timeline[near])->0;
    let after = logged(log, sight.plate, sight.camera.road, sight.time, sight.camera.mile);
    assert(timeline_of(after, sight.plate, sight.camera.road) == timeline.insert(
        sight.time,
        sight.camera.mile,
    ));
}

/// Observing keeps sound books sound.
pub proof fn lemma_observe_sound(books: Books, sight: Sight)
    requires
        sound(books),
    ensures
        sound(observe(books, sight)),
{
    let after = observe(books, sight);
    assert forall|i: int| 0 <= i < books.emitted.len() implies genuine(
        after.log,
        #[trigger] books.emitted[i],
    ) by {
        let e = books.emitted[i];
        lemma_logged_keeps(
            books.log,
            sight.plate,
            sight.camera.road,
            sight.time,
            sight.camera.mile,
            e.plate,
            e.road,
            e.timestamp1,
        );
        lemma_logged_keeps(
            books.log,
            sight.plate,
            sight.camera.road,
            sight.time,
            sight.camera.mile,
            e.plate,
            e.road,
            e.timestamp2,
        );
    }
    match issue(books, sight) {
        Some(ticket) => {
            lemma_put_forward_genuine(books.log, sight);
            lemma_issue_sound(books, ticket);
            assert forall|i: int| 0 <= i < after.emitted.len() implies genuine(
                after.log,
                #[trigger] after.emitted[i],
            ) by {
                if i < books.emitted.len() {
                    assert(after.emitted[i] == books.emitted[i]);
                }
            }
            let mid = Books {
                log: books.log,
                issued: assessed(books.issued, ticket),
                emitted: books.emitted.push(ticket),
            };
            assert(covered(mid));
            assert(after.issued == mid.issued);
            assert(after.emitted == mid.emitted);
            assert forall|plate: Seq<u8>, day: Day| #[trigger]
                days_of(after.issued, plate).contains(day) <==> ticketed(
                    after.emitted,
                    plate,
                    day,
                ) by {
                assert(days_of(mid.issued, plate).contains(day) <==> ticketed(
                    mid.emitted,
                    plate,
                    day,
                ));
            }
        },
        None => {
            assert(after.emitted == books.emitted);
        },
    }
}

/// Issuing a ticket whose days are free keeps the account of the days
/// exact and the tickets sparing.
pub proof fn lemma_issue_sound(books: Books, ticket: TicketView)
    requires
        covered(books),
        sparing(books.emitted),
        days_free(books.issued, ticket),
    ensures
        covered(
            Books {
                log: books.log,
                issued: assessed(books.issued, ticket),
                emitted: books.emitted.push(ticket),
            },
        ),
        sparing(books.emitted.push(ticket)),
{
    let issued = assessed(books.issued, ticket);
    let emitted = books.emitted.push(ticket);
    let n = books.emitted.len() as int;
    assert forall|plate: Seq<u8>, day: Day| #[trigger]
        days_of(issued, plate).contains(day) <==> ticketed(emitted, plate, day) by {
        if days_of(issued, plate).contains(day) {
            if days_of(books.issued, plate).contains(day) {
                assert(ticketed(books.emitted, plate, day));
                let i = choose|i: int|
                    0 <= i < books.emitted.len() && (#[trigger] books.emitted[i]).plate == plate
                        && span(books.emitted[i]).contains(day);
                assert(emitted[i] == books.emitted[i]);
            } else {
                assert(emitted[n] == ticket);
            }
        }
        if ticketed(emitted, plate, day) {
            let i = choose|i: int|
                0 <= i < emitted.len() && (#[trigger] emitted[i]).plate == plate && span(
                    emitted[i],
                ).contains(day);
            if i < n {
                assert(books.emitted[i] == emitted[i]);
                assert(ticketed(books.emitted, plate, day));
                assert(days_of(books.issued, plate).contains(day));
            }
        }
    }
    assert forall|i: int, j: int|
        0 <= i < emitted.len() && 0 <= j < emitted.len() && i != j && (#[trigger] emitted[i]).plate
            == (#[trigger] emitted[j]).plate implies span(emitted[i]).disjoint(
        span(emitted[j]),
    ) by {
        if i < n && j < n {
            assert(emitted[i] == books.emitted[i]);
            assert(emitted[j] == books.emitted[j]);
        } else {
            let old_one = if i < n { i } else { j };
            assert(emitted[old_one] == books.emitted[old_one]);
            assert forall|day: Day| span(books.emitted[old_one]).contains(day) implies !span(
                ticket,
            ).contains(day) by {
                assert(ticketed(books.emitted, ticket.plate, day));
                assert(days_of(books.issued, ticket.plate).contains(day));
            }
        }
    }
}

/// Any run of observations from sound books ends in sound books.
pub proof fn lemma_observe_all_sound(books: Books, sights: Seq<Sight>)
    requires
        sound(books),
    ensures
        sound(observe_all(books, sights)),
    decreases sights.len(),
{
    if sights.len() > 0 {
        lemma_observe_all_sound(books, sights.drop_last());
        lemma_observe_sound(observe_all(books, sights.drop_last()), sights.last());
    }
}

/// After any run of observations from blank books, the days on record
/// for a plate are exactly the days that the tickets issued for it cover.
pub proof fn lemma_day_coverage(sights: Seq<Sight>, plate: Seq<u8>, day: Day)
    ensures
        days_of(observe_all(blank(), sights).issued, plate).contains(day) <==> ticketed(
            observe_all(blank(), sights).emitted,
            plate,
            day,
        ),
{
    lemma_observe_all_sound(blank(), sights);
}

/// After any run of observations from blank books, no two tickets issued
/// for one plate cover a day in common.
pub proof fn lemma_one_ticket_per_day(sights: Seq<Sight>, i: int, j: int)
    requires
        0 <= i < observe_all(blank(), sights).emitted.len(),
        0 <= j < observe_all(blank(), sights).emitted.len(),
        i != j,
        observe_all(blank(), sights).emitted[i].plate == observe_all(
            blank(),
            sights,
        ).emitted[j].plate,
    ensures
        span(observe_all(blank(), sights).emitted[i]).disjoint(
            span(observe_all(blank(), sights).emitted[j]),
        ),
{
    lemma_observe_all_sound(blank(), sights);
}

/// After any run of observations from blank books, every ticket issued
/// has its earlier sighting first, each with the mile that the log holds
/// for it, and carries the rounded average speed between the two.
pub proof fn lemma_tickets_genuine(sights: Seq<Sight>, i: int)
    requires
        0 <= i < observe_all(blank(), sights).emitted.len(),
    ensures
        genuine(observe_all(blank(), sights).log, observe_all(blank(), sights).emitted[i]),
{
    lemma_observe_all_sound(blank(), sights);
}

/// A sighting that is on record changes nothing when it is observed.
pub proof fn lemma_observe_known(books: Books, sight: Sight)
    requires
        on_record(books.log, sight),
    ensures
        observe(books, sight) == books,
{
}

/// Once observed, a sighting is on record.
pub proof fn lemma_observe_records(books: Books, sight: Sight)
    ensures
        on_record(observe(books, sight).log, sight),
{
}

/// What is on record stays on record.
pub proof fn lemma_observe_keeps(books: Books, sight: Sight, known: Sight)
    requires
        on_record(books.log, known),
    ensures
        on_record(observe(books, sight).log, known),
{
}

/// What is on record stays on record through any run of observations.
pub proof fn lemma_observe_all_keeps(books: Books, sights: Seq<Sight>, known: Sight)
    requires
        on_record(books.log, known),
    ensures
        on_record(observe_all(books, sights).log, known),
    decreases sights.len(),
{
    if sights.len() > 0 {
        lemma_observe_all_keeps(books, sights.drop_last(), known);
        lemma_observe_keeps(observe_all(books, sights.drop_last()), sights.last(), known);
    }
}

/// Observing one run and then another is observing the two in a row.
pub proof fn lemma_observe_all_add(books: Books, first: Seq<Sight>, second: Seq<Sight>)
    ensures
        observe_all(books, first + second) == observe_all(observe_all(books, first), second),
    decreases second.len(),
{
    if second.len() == 0 {
        assert(first + second =~= first);
    } else {
        assert((first + second).drop_last() =~= first + second.drop_last());
        lemma_observe_all_add(books, first, second.drop_last());
    }
}

/// Observation is idempotent: repeating an observation anywhere after it
/// was made leaves the books as they would have been without the
/// repetition.
pub proof fn lemma_repeat_changes_nothing(
    books: Books,
    before: Seq<Sight>,
    sight: Sight,
    between: Seq<Sight>,
    after: Seq<Sight>,
)
    ensures
        observe_all(books, before + seq![sight] + between + seq![sight] + after) == observe_all(
            books,
            before + seq![sight] + between + after,
        ),
{
    let head = before + seq![sight] + between;
    let made = observe_all(books, before + seq![sight]);
    lemma_observe_all_add(books, before + seq![sight], between);
    assert((before + seq![sight]).drop_last() =~= before);
    lemma_observe_records(observe_all(books, before), sight);
    lemma_observe_all_keeps(made, between, sight);
    let reached = observe_all(books, head);
    assert((head + seq![sight]).drop_last() =~= head);
    lemma_observe_known(reached, sight);
    assert(observe_all(books, head + seq![sight]) == reached);
    lemma_observe_all_add(books, head + seq![sight], after);
    lemma_observe_all_add(books, head, after);
}

} // verus!
