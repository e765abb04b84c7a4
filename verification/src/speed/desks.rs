//! Routing tickets to dispatchers: for each road, the subscribers that
//! take its tickets in turn, and the tickets that wait because nobody
//! takes them yet.

use vstd::prelude::*;
use std::collections::BTreeMap;
use std::collections::BTreeSet;
use std::collections::VecDeque;
use tokio::sync::mpsc::UnboundedReceiver;
use tokio::sync::mpsc::UnboundedSender;
use crate::speed::domain::{Region, Road, Ticket, TicketView};
use crate::speed::roads::{rising, sorted_roads};

verus! {

/// The sending half of tokio's unbounded channel.
#[verifier::external_type_specification]
#[verifier::external_body]
#[verifier::reject_recursive_types(T)]
pub struct ExUnboundedSender<T>(UnboundedSender<T>);

/// The receiving half of tokio's unbounded channel.
#[verifier::external_type_specification]
#[verifier::external_body]
#[verifier::reject_recursive_types(T)]
pub struct ExUnboundedReceiver<T>(UnboundedReceiver<T>);

/// Opens a channel for tickets with `tokio::sync::mpsc::unbounded_channel`.
/// Nothing is claimed of the two halves.
#[verifier::external_body]
pub(crate) fn open_channel() -> (ends: (UnboundedSender<Ticket>, UnboundedReceiver<Ticket>)) {
    tokio::sync::mpsc::unbounded_channel()
}

/// Sends `ticket` with `UnboundedSender::send`, which does not wait.
/// Whether the send succeeds depends on whether the receiving half is
/// still open, so nothing is claimed about that; a ticket that could not
/// be sent is handed back as it was.
#[verifier::external_body]
pub(crate) fn send_ticket(tx: &UnboundedSender<Ticket>, ticket: Ticket) -> (res: Result<
    (),
    Ticket,
>)
    ensures
        res matches Err(back) ==> back == ticket,
{
    match tx.send(ticket) {
        Ok(()) => Ok(()),
        Err(refused) => Err(refused.0),
    }
}

/// Another handle on the same channel, by `UnboundedSender::clone`.
/// Nothing is claimed of it.
#[verifier::external_body]
pub(crate) fn clone_sender(tx: &UnboundedSender<Ticket>) -> (copy: UnboundedSender<Ticket>) {
    tx.clone()
}

/// A dispatcher's subscription to a road: the number under which the
/// region knows the dispatcher, and the channel that leads to it.
#[derive(Debug)]
pub struct Subscriber {
    pub id: u64,
    pub tx: UnboundedSender<Ticket>,
}

/// What the region holds for one road.
#[derive(Debug)]
pub struct Desk {
    pub road: Road,
    pub pending: VecDeque<Ticket>,
    pub subscribers: VecDeque<Subscriber>,
}

/// The desks of all roads that had a ticket or a subscriber, by road.
#[derive(Debug)]
pub struct Desks {
    pub desks: BTreeMap<Road, Desk>,
}

/// What a [`Desk`] holds: the tickets that wait, oldest first, and the
/// subscribers by their numbers, the next to be served first.
pub struct DeskView {
    pub pending: Seq<TicketView>,
    pub subscribers: Seq<u64>,
}

/// The desk of each road that has one.
pub type Board = Map<Road, DeskView>;

/// The desk of `road` on `board`: an empty one where the board has none.
pub open spec fn desk_of(board: Board, road: Road) -> DeskView {
    if board.contains_key(road) {
        board[road]
    } else {
        DeskView { pending: Seq::empty(), subscribers: Seq::empty() }
    }
}

/// How a ticket left the region.
#[derive(Clone, Copy, Debug, PartialEq, Eq)]
pub enum Delivery {
    /// The ticket went to `subscriber`, after `evicted` subscribers before
    /// it in the road's queue had failed to take it.
    Delivered { subscriber: u64, evicted: usize },
    /// All `evicted` subscribers of the road failed to take the ticket, or
    /// there were none: the ticket waits.
    Buffered { evicted: usize },
}

/// Whether `delivery` can be the outcome of routing a ticket for `road`:
/// the subscribers are tried from the front of the queue, and the ticket
/// waits only when none is left.
pub open spec fn delivery_fits(board: Board, road: Road, delivery: Delivery) -> bool {
    let queue = desk_of(board, road).subscribers;
    match delivery {
        Delivery::Delivered { subscriber, evicted } => evicted < queue.len() && subscriber
            == queue[evicted as int],
        Delivery::Buffered { evicted } => evicted == queue.len(),
    }
}

/// The board after a ticket was routed with the given outcome. The
/// subscribers that failed are gone from the road's queue. The one that
/// took the ticket has moved to the back of the queue; where none did, the
/// ticket is the last of those that wait.
pub open spec fn routed(board: Board, ticket: TicketView, delivery: Delivery) -> Board {
    let desk = desk_of(board, ticket.road);
    match delivery {
        Delivery::Delivered { subscriber, evicted } => board.insert(
            ticket.road,
            DeskView {
                pending: desk.pending,
                subscribers: desk.subscribers.skip(evicted + 1).push(subscriber),
            },
        ),
        Delivery::Buffered { evicted } => board.insert(
            ticket.road,
            DeskView { pending: desk.pending.push(ticket), subscribers: Seq::empty() },
        ),
    }
}

impl Desk {
    /// The tickets that wait, oldest first.
    pub open spec fn waiting(&self) -> Seq<TicketView> {
        Seq::new(self.pending@.len(), |i: int| self.pending@[i]@)
    }

    /// The numbers of the subscribers, the next to be served first.
    pub open spec fn queue(&self) -> Seq<u64> {
        Seq::new(self.subscribers@.len(), |i: int| self.subscribers@[i].id)
    }

    /// Tickets wait only at a desk without subscribers.
    pub open spec fn settled(&self) -> bool {
        self.pending@.len() > 0 ==> self.subscribers@.len() == 0
    }

    /// A desk for `road` at which nothing waits and nobody is subscribed.
    pub fn new(road: Road) -> (desk: Desk)
        ensures
            desk.road == road,
            desk.waiting() == Seq::<TicketView>::empty(),
            desk.queue() == Seq::<u64>::empty(),
    {
        let desk = Desk { road, pending: VecDeque::new(), subscribers: VecDeque::new() };
        assert(desk.waiting() =~= Seq::<TicketView>::empty());
        assert(desk.queue() =~= Seq::<u64>::empty());
        desk
    }

    /// Settles the queue after a ticket was sent to the subscriber at its
    /// front. One that took the ticket moves to the back of the queue. One
    /// that did not leaves the queue, and the ticket is handed back for
    /// the next to be tried.
    pub fn served(&mut self, sent: Result<(), Ticket>) -> (back: Option<Ticket>)
        requires
            old(self).queue().len() > 0,
        ensures
            final(self).road == old(self).road,
            final(self).waiting() == old(self).waiting(),
            match sent {
                Ok(()) => back is None && final(self).queue() == old(self).queue().skip(1).push(
                    old(self).queue()[0],
                ),
                Err(ticket) => back == Some(ticket) && final(self).queue() == old(self).queue().skip(1),
            },
    {
        let ghost queue = self.queue();
        assert(queue[0] == self.subscribers@[0].id);
        match sent {
            Ok(()) => {
                match self.subscribers.pop_front() {
                    Some(first) => {
                        assert(self.queue() =~= queue.skip(1));
                        self.subscribers.push_back(first);
                        assert(self.queue() =~= queue.skip(1).push(queue[0]));
                    },
                    None => {},
                }
                None
            },
            Err(ticket) => {
                self.subscribers.pop_front();
                assert(self.queue() =~= queue.skip(1));
                Some(ticket)
            },
        }
    }

    /// Takes the oldest of the tickets that wait at the desk, if any
    /// waits.
    pub fn next_waiting(&mut self) -> (next: Option<Ticket>)
        ensures
            final(self).road == old(self).road,
            final(self).queue() == old(self).queue(),
            match next {
                Some(t) => old(self).waiting().len() > 0 && t@ == old(self).waiting()[0] && final(self).waiting() == old(self).waiting().skip(1),
                None => old(self).waiting().len() == 0 && final(self).waiting() == old(self).waiting(),
            },
    {
        let ghost waiting = self.waiting();
        let next = self.pending.pop_front();
        proof {
            if next is Some {
                assert(waiting[0] == next->0@);
                assert(self.waiting() =~= waiting.skip(1));
            } else {
                assert(self.waiting() =~= waiting);
            }
            assert(self.queue() =~= old(self).queue());
        }
        next
    }

    /// Settles the tickets that wait after one of them was taken and sent
    /// to a dispatcher. Where it was taken, the next may follow. Where it
    /// was not, it is again the first of those that wait, and no other is
    /// to be sent.
    pub fn handed(&mut self, sent: Result<(), Ticket>) -> (go_on: bool)
        ensures
            final(self).road == old(self).road,
            final(self).queue() == old(self).queue(),
            match sent {
                Ok(()) => go_on && final(self).waiting() == old(self).waiting(),
                Err(back) => !go_on && final(self).waiting() == seq![back@] + old(self).waiting(),
            },
    {
        match sent {
            Ok(()) => true,
            Err(back) => {
                let ghost waiting = self.waiting();
                self.pending.push_front(back);
                assert(self.waiting() =~= seq![back@] + waiting);
                assert(self.queue() =~= old(self).queue());
                false
            },
        }
    }

    /// Sends the tickets that wait at the desk through `tx`, oldest first,
    /// until none is left or one cannot be sent; that one stays the first
    /// of those that wait. Returns how many were sent and whether none is
    /// left.
    pub(crate) fn drain(&mut self, tx: &UnboundedSender<Ticket>) -> (res: (usize, bool))
        ensures
            final(self).road == old(self).road,
            final(self).queue() == old(self).queue(),
            res.0 <= old(self).waiting().len(),
            final(self).waiting() == old(self).waiting().skip(res.0 as int),
            res.1 == (res.0 == old(self).waiting().len()),
    {
        let mut sent: usize = 0;
        let total = self.pending.len();
        assert(old(self).waiting().skip(0) =~= old(self).waiting());
        loop
            invariant
                self.road == old(self).road,
                self.queue() == old(self).queue(),
                sent <= old(self).waiting().len() == total,
                self.waiting() == old(self).waiting().skip(sent as int),
            decreases self.pending@.len(),
        {
            let ghost now = self.waiting();
            match self.next_waiting() {
                None => {
                    assert(old(self).waiting().skip(sent as int).len() == total - sent);
                    return (sent, true);
                },
                Some(ticket) => {
                    assert(sent < total);
                    let ghost oldest = ticket@;
                    let outcome = send_ticket(tx, ticket);
                    if self.handed(outcome) {
                        sent += 1;
                        assert(self.waiting() =~= old(self).waiting().skip(sent as int));
                    } else {
                        assert(self.waiting() =~= now);
                        return (sent, false);
                    }
                },
            }
        }
    }
}

impl View for Desk {
    type V = DeskView;

    open spec fn view(&self) -> DeskView {
        DeskView { pending: self.waiting(), subscribers: self.queue() }
    }
}

impl Desks {
    /// Each desk stands under its own road and is settled.
    pub open spec fn wf(&self) -> bool {
        forall|road: Road| #[trigger]
            self.desks@.contains_key(road) ==> self.desks@[road].road == road
                && self.desks@[road].settled()
    }

    /// No desks.
    pub fn new() -> (desks: Desks)
        ensures
            desks.wf(),
            desks@ == Board::empty(),
    {
        let desks = Desks { desks: BTreeMap::new() };
        assert(desks@ =~= Board::empty());
        desks
    }

    /// Whether `road` has a desk.
    pub fn has(&self, road: Road) -> (res: bool)
        ensures
            res == self@.contains_key(road),
    {
        self.desks.contains_key(&road)
    }

    /// Takes the desk of `road` off the board: an empty one where the
    /// road had none.
    pub fn take(&mut self, road: Road) -> (desk: Desk)
        requires
            old(self).wf(),
        ensures
            final(self).wf(),
            final(self)@ == old(self)@.remove(road),
            desk.road == road,
            desk.settled(),
            desk@ == desk_of(old(self)@, road),
    {
        let found = self.desks.remove(&road);
        proof {
            assert(self@ =~= old(self)@.remove(road));
            if found is Some {
                assert(old(self).desks@.contains_key(road));
            }
            assert forall|other: Road| #[trigger]
                self.desks@.contains_key(other) implies self.desks@[other].road == other
                && self.desks@[other].settled() by {
                assert(old(self).desks@.contains_key(other));
            }
        }
        match found {
            Some(desk) => {
                assert(desk == old(self).desks@[road]);
                desk
            },
            None => {
                let desk = Desk::new(road);
                assert(desk.pending@.len() == desk.waiting().len());
                desk
            },
        }
    }

    /// Puts a desk on the board, in the place of the one that its road
    /// had, if it had one.
    pub fn put(&mut self, desk: Desk)
        requires
            old(self).wf(),
            desk.settled(),
        ensures
            final(self).wf(),
            final(self)@ == old(self)@.insert(desk.road, desk@),
    {
        self.desks.insert(desk.road, desk);
        assert(self@ =~= old(self)@.insert(desk.road, desk@));
    }

    /// At well-formed desks, tickets wait for a road only while it has no
    /// subscriber.
    pub proof fn lemma_settled(&self, road: Road)
        requires
            self.wf(),
        ensures
            desk_of(self@, road).pending.len() > 0 ==> desk_of(self@, road).subscribers.len() == 0,
    {
        if self@.contains_key(road) {
            assert(self.desks@.contains_key(road));
            assert(self.desks@[road].settled());
        }
    }
}

impl View for Desks {
    type V = Board;

    open spec fn view(&self) -> Board {
        Map::new(|road: Road| self.desks@.contains_key(road), |road: Road| self.desks@[road]@)
    }
}

impl Region {
    /// Routes a ticket to the subscribers of its road. The subscriber at
    /// the front of the road's queue is tried first. One that takes the
    /// ticket moves to the back of the queue, and the ticket is delivered.
    /// One that fails to take it leaves the queue, and the next is tried.
    /// Where none takes it, the ticket joins those that wait for the road.
    pub fn dispatch_ticket(desks: &mut Desks, ticket: Ticket) -> (delivery: Delivery)
        requires
            old(desks).wf(),
        ensures
            final(desks).wf(),
            delivery_fits(old(desks)@, ticket.road, delivery),
            final(desks)@ == routed(old(desks)@, ticket@, delivery),
    {
        let ghost wanted = ticket@;
        let road = ticket.road;
        let mut desk = desks.take(road);
        let ghost start = desk@;
        let mut current = ticket;
        let mut evicted: usize = 0;
        let total = desk.subscribers.len();
        assert(start.subscribers.skip(0) =~= start.subscribers);
        loop
            invariant
                desk.road == road,
                desk.waiting() == start.pending,
                start.pending.len() > 0 ==> start.subscribers.len() == 0,
                evicted <= start.subscribers.len() == total,
                desk.queue() == start.subscribers.skip(evicted as int),
                current@ == wanted,
                wanted == ticket@,
                road == wanted.road,
                start == desk_of(old(desks)@, road),
                desks.wf(),
                desks@ == old(desks)@.remove(road),
            ensures
                desk.subscribers@.len() == 0,
            decreases desk.subscribers@.len(),
        {
            if desk.subscribers.len() == 0 {
                break;
            }
            let ghost queue = desk.queue();
            let subscriber = desk.subscribers[0].id;
            assert(queue[0] == subscriber);
            assert(queue.len() == desk.subscribers@.len());
            assert(evicted < total);
            assert(subscriber == start.subscribers[evicted as int]);
            let outcome = send_ticket(&desk.subscribers[0].tx, current);
            match desk.served(outcome) {
                None => {
                    proof {
                        assert(desk.queue() =~= start.subscribers.skip(evicted + 1).push(
                            subscriber,
                        ));
                        assert(desk.queue().len() > 0);
                        assert(desk.subscribers@.len() == desk.queue().len());
                        assert(desk.pending@.len() == desk.waiting().len());
                    }
                    desks.put(desk);
                    assert(desks@ =~= routed(
                        old(desks)@,
                        wanted,
                        Delivery::Delivered { subscriber, evicted },
                    ));
                    return Delivery::Delivered { subscriber, evicted };
                },
                Some(back) => {
                    current = back;
                    evicted += 1;
                    assert(desk.queue() =~= start.subscribers.skip(evicted as int));
                },
            }
        }
        desk.pending.push_back(current);
        proof {
            assert(desk.waiting() =~= start.pending.push(wanted));
            assert(desk.queue() =~= Seq::<u64>::empty());
        }
        desks.put(desk);
        assert(desks@ =~= routed(old(desks)@, wanted, Delivery::Buffered { evicted }));
        Delivery::Buffered { evicted }
    }
}

/// How the enrolment of a dispatcher ended.
#[derive(Clone, Copy, Debug, PartialEq, Eq)]
pub enum Enrollment {
    /// Every ticket that waited for one of the dispatcher's roads was sent
    /// to it, and it is the last subscriber of each of its roads.
    Subscribed,
    /// A ticket for `road` could not be sent, after `sent` tickets of that
    /// road had been. The dispatcher is subscribed to nothing.
    Stalled { road: Road, sent: usize },
}

/// The board with nothing waiting any more for the roads of `roads` that
/// are below `below`.
pub open spec fn drained(board: Board, roads: Set<Road>, below: int) -> Board {
    Map::new(
        |r: Road| board.contains_key(r),
        |r: Road|
            if roads.contains(r) && r < below {
                DeskView { pending: Seq::empty(), subscribers: board[r].subscribers }
            } else {
                board[r]
            },
    )
}

/// The board with the subscriber `id` at the back of the queue of each
/// road of `roads` that is below `below`.
pub open spec fn subscribed(board: Board, roads: Set<Road>, below: int, id: u64) -> Board {
    Map::new(
        |r: Road| board.contains_key(r) || (roads.contains(r) && r < below),
        |r: Road|
            if roads.contains(r) && r < below {
                DeskView {
                    pending: desk_of(board, r).pending,
                    subscribers: desk_of(board, r).subscribers.push(id),
                }
            } else {
                board[r]
            },
    )
}

/// Whether `outcome` can be the outcome of enrolling a dispatcher for
/// `roads`: it stalls only at one of its roads, on a ticket that waited
/// there.
pub open spec fn enrollment_fits(board: Board, roads: Set<Road>, outcome: Enrollment) -> bool {
    match outcome {
        Enrollment::Subscribed => true,
        Enrollment::Stalled { road, sent } => roads.contains(road) && sent < desk_of(
            board,
            road,
        ).pending.len(),
    }
}

/// The board after the enrolment of the dispatcher `id` for `roads`. The
/// roads are served from the lowest to the highest. Where all went well,
/// nothing waits any more for any of them, and the dispatcher is the last
/// subscriber of each. Where it stalled, the roads below the one at which
/// it stalled have nothing waiting, that road has lost the tickets that
/// were sent, and nothing else has changed.
pub open spec fn enrolled(board: Board, roads: Set<Road>, id: u64, outcome: Enrollment) -> Board {
    match outcome {
        Enrollment::Subscribed => subscribed(drained(board, roads, 0x10000), roads, 0x10000, id),
        Enrollment::Stalled { road, sent } => drained(board, roads, road as int).insert(
            road,
            DeskView {
                pending: desk_of(board, road).pending.skip(sent as int),
                subscribers: desk_of(board, road).subscribers,
            },
        ),
    }
}

/// The road at place `k` of `order`, or a bound above every road where
/// `order` has no such place.
pub open spec fn road_at(order: Seq<Road>, k: int) -> int {
    if 0 <= k < order.len() {
        order[k] as int
    } else {
        0x10000
    }
}

/// The roads of a rising order that are below the one at place `k + 1`
/// are those below the one at place `k`, and that one.
pub proof fn lemma_road_at_step(order: Seq<Road>, roads: Set<Road>, k: int)
    requires
        rising(order),
        order.to_set() == roads,
        0 <= k < order.len(),
    ensures
        forall|r: Road|
            (roads.contains(r) && r < road_at(order, k + 1)) <==> ((roads.contains(r) && r
                < road_at(order, k)) || r == order[k]),
{
    assert forall|r: Road|
        (roads.contains(r) && r < road_at(order, k + 1)) <==> ((roads.contains(r) && r < road_at(
            order,
            k,
        )) || r == order[k]) by {
        if r == order[k] {
            assert(order.to_set().contains(r));
            if k + 1 < order.len() {
                assert(order[k] < order[k + 1]);
            }
        }
        if roads.contains(r) && r < road_at(order, k + 1) && r != order[k] {
            assert(order.to_set().contains(r));
            let j = choose|j: int| 0 <= j < order.len() && order[j] == r;
            if j > k {
                if k + 1 < order.len() && j > k + 1 {
                    assert(order[k + 1] < order[j]);
                }
            } else {
                assert(order[j] < order[k]);
            }
        }
        if roads.contains(r) && r < road_at(order, k) {
            if k + 1 < order.len() {
                assert(order[k] < order[k + 1]);
            }
        }
    }
}

/// No road of a rising order of `roads` is below the first of the order.
pub proof fn lemma_first_is_lowest(order: Seq<Road>, roads: Set<Road>)
    requires
        rising(order),
        order.to_set() == roads,
    ensures
        forall|r: Road| roads.contains(r) ==> r >= road_at(order, 0),
{
    assert forall|r: Road| roads.contains(r) implies r >= road_at(order, 0) by {
        assert(order.to_set().contains(r));
        let j = choose|j: int| 0 <= j < order.len() && order[j] == r;
        if j > 0 {
            assert(order[0] < order[j]);
        }
    }
}

impl Region {
    /// Enrols the dispatcher `id`, reached through `tx`, for `roads`. The
    /// tickets that wait for its roads are sent to it first, road by road
    /// from the lowest, the oldest of each road first. Where all of them
    /// could be sent, the dispatcher then becomes the last subscriber of
    /// each of its roads. Where one could not, it stays the first of those
    /// that wait for its road, and the dispatcher is subscribed to
    /// nothing.
    pub fn enroll(
        desks: &mut Desks,
        roads: &BTreeSet<Road>,
        id: u64,
        tx: UnboundedSender<Ticket>,
    ) -> (outcome: Enrollment)
        requires
            old(desks).wf(),
        ensures
            final(desks).wf(),
            enrollment_fits(old(desks)@, roads@, outcome),
            final(desks)@ == enrolled(old(desks)@, roads@, id, outcome),
    {
        let order = sorted_roads(roads);
        let mut k: usize = 0;
        proof {
            lemma_first_is_lowest(order@, roads@);
            assert(desks@ =~= drained(old(desks)@, roads@, road_at(order@, 0)));
        }
        while k < order.len()
            invariant
                k <= order.len(),
                desks.wf(),
                old(desks).wf(),
                rising(order@),
                order@.to_set() == roads@,
                desks@ == drained(old(desks)@, roads@, road_at(order@, k as int)),
            decreases order.len() - k,
        {
            let road = order[k];
            let ghost board = desks@;
            proof {
                lemma_road_at_step(order@, roads@, k as int);
                assert(order@.to_set().contains(road));
            }
            if desks.has(road) {
                let mut desk = desks.take(road);
                let ghost start = desk@;
                assert(start == old(desks)@[road]);
                let (sent, complete) = desk.drain(&tx);
                proof {
                    assert(desk.subscribers@.len() == desk.queue().len());
                    assert(desk.pending@.len() == desk.waiting().len());
                    old(desks).lemma_settled(road);
                }
                desks.put(desk);
                if !complete {
                    assert(desks@ =~= enrolled(
                        old(desks)@,
                        roads@,
                        id,
                        Enrollment::Stalled { road, sent },
                    ));
                    return Enrollment::Stalled { road, sent };
                }
                proof {
                    assert(start.pending.skip(sent as int) =~= Seq::<TicketView>::empty());
                    assert(desks@ =~= drained(old(desks)@, roads@, road_at(order@, k + 1)));
                }
            } else {
                assert(board =~= drained(old(desks)@, roads@, road_at(order@, k + 1)));
            }
            k += 1;
        }
        let ghost calm = drained(old(desks)@, roads@, 0x10000);
        k = 0;
        proof {
            lemma_first_is_lowest(order@, roads@);
            assert(desks@ =~= subscribed(calm, roads@, road_at(order@, 0), id));
        }
        while k < order.len()
            invariant
                k <= order.len(),
                desks.wf(),
                rising(order@),
                order@.to_set() == roads@,
                calm == drained(old(desks)@, roads@, 0x10000),
                desks@ == subscribed(calm, roads@, road_at(order@, k as int), id),
            decreases order.len() - k,
        {
            let road = order[k];
            let ghost board = desks@;
            proof {
                lemma_road_at_step(order@, roads@, k as int);
                assert(order@.to_set().contains(road));
                if k > 0 {
                    assert(order@[k - 1] < order@[k as int]);
                }
            }
            let mut desk = desks.take(road);
            let ghost start = desk@;
            proof {
                assert(start == desk_of(board, road));
                assert(start.pending =~= Seq::<TicketView>::empty());
                assert(desk.pending@.len() == desk.waiting().len());
            }
            desk.subscribers.push_back(Subscriber { id, tx: clone_sender(&tx) });
            proof {
                assert(desk.queue() =~= start.subscribers.push(id));
                assert(desk.waiting() =~= start.pending);
            }
            desks.put(desk);
            assert(desks@ =~= subscribed(calm, roads@, road_at(order@, k + 1), id));
            k += 1;
        }
        Enrollment::Subscribed
    }
}

} // verus!
