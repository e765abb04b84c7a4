//! The days on which each plate has already been ticketed. A plate gets at
//! most one ticket for any day.

use vstd::prelude::*;
use std::collections::BTreeSet;
use crate::assoc::{as_map, distinct_keys, lemma_as_map_absent, lemma_as_map_entry,
    lemma_as_map_insert, lemma_as_map_update};
use crate::bytes::{before, compare, copy_bytes, lemma_before_irreflexive, lemma_before_total,
    lemma_before_transitive};
use crate::speed::domain::{day_of, Day, Plate, Region, Ticket, TicketView, SECONDS_PER_DAY};

verus! {

/// For each plate that was ticketed, the days that its tickets cover.
pub type Issued = Map<Seq<u8>, Set<Day>>;

/// The days on which one plate was ticketed.
#[derive(Debug)]
pub struct PlateDays {
    pub plate: Plate,
    pub days: BTreeSet<Day>,
}

/// The ticketed days of every plate.
#[derive(Debug)]
pub struct IssuedDays {
    pub plates: Vec<PlateDays>,
}

/// The days on which `plate` was ticketed, none where nothing is on
/// record.
pub open spec fn days_of(issued: Issued, plate: Seq<u8>) -> Set<Day> {
    if issued.contains_key(plate) {
        issued[plate]
    } else {
        Set::empty()
    }
}

/// The days from `first` to `last`, both included.
pub open spec fn days_between(first: Day, last: Day) -> Set<Day> {
    Set::new(|d: Day| first <= d <= last)
}

/// The days that a ticket covers: from the day of its first sighting to
/// the day of its second, both included.
pub open spec fn span(ticket: TicketView) -> Set<Day> {
    days_between(day_of(ticket.timestamp1), day_of(ticket.timestamp2))
}

/// Whether the plate of `ticket` has no ticket yet on any day that
/// `ticket` covers.
pub open spec fn days_free(issued: Issued, ticket: TicketView) -> bool {
    span(ticket).disjoint(days_of(issued, ticket.plate))
}

/// The record after `ticket` was put forward: its days are added to those
/// of its plate if they were all free, and nothing changes otherwise.
pub open spec fn assessed(issued: Issued, ticket: TicketView) -> Issued {
    if days_free(issued, ticket) {
        issued.insert(ticket.plate, days_of(issued, ticket.plate).union(span(ticket)))
    } else {
        issued
    }
}

/// The plates of the entries are in the strict order of the dictionary.
pub open spec fn plates_rise(entries: Seq<(Seq<u8>, Set<Day>)>) -> bool {
    forall|i: int, j: int|
        0 <= i < j < entries.len() ==> before(#[trigger] entries[i].0, #[trigger] entries[j].0)
}

/// Rising plates are all different.
pub proof fn lemma_plates_distinct(entries: Seq<(Seq<u8>, Set<Day>)>)
    requires
        plates_rise(entries),
    ensures
        distinct_keys(entries),
{
    assert forall|i: int, j: int|
        0 <= i < entries.len() && 0 <= j < entries.len() && i != j implies entries[i].0
        != entries[j].0 by {
        lemma_before_irreflexive(entries[i].0);
        if i < j {
            assert(before(entries[i].0, entries[j].0));
        } else {
            assert(before(entries[j].0, entries[i].0));
        }
    }
}

/// A plate that has its place at `at` among rising plates, with no entry
/// of its own, is the plate of no entry.
pub proof fn lemma_place_is_free(entries: Seq<(Seq<u8>, Set<Day>)>, plate: Seq<u8>, at: int)
    requires
        0 <= at <= entries.len(),
        forall|j: int| 0 <= j < at ==> before(#[trigger] entries[j].0, plate),
        forall|j: int| at <= j < entries.len() ==> before(plate, #[trigger] entries[j].0),
    ensures
        forall|j: int| 0 <= j < entries.len() ==> entries[j].0 != plate,
        !as_map(entries).contains_key(plate),
{
    lemma_before_irreflexive(plate);
    assert forall|j: int| 0 <= j < entries.len() implies entries[j].0 != plate by {
        if j < at {
            assert(before(entries[j].0, plate));
        } else {
            assert(before(plate, entries[j].0));
        }
    }
    lemma_as_map_absent(entries, plate);
}

/// An entry put at the place of its plate among rising plates leaves them
/// rising.
pub proof fn lemma_plates_rise_insert(
    entries: Seq<(Seq<u8>, Set<Day>)>,
    plate: Seq<u8>,
    days: Set<Day>,
    at: int,
)
    requires
        plates_rise(entries),
        0 <= at <= entries.len(),
        forall|j: int| 0 <= j < at ==> before(#[trigger] entries[j].0, plate),
        forall|j: int| at <= j < entries.len() ==> before(plate, #[trigger] entries[j].0),
    ensures
        plates_rise(entries.insert(at, (plate, days))),
{
    let after = entries.insert(at, (plate, days));
    assert forall|i: int, j: int| 0 <= i < j < after.len() implies before(
        #[trigger] after[i].0,
        #[trigger] after[j].0,
    ) by {
        let i0 = if i < at { i } else { i - 1 };
        let j0 = if j < at { j } else { j - 1 };
        if i != at && j != at {
            assert(after[i] == entries[i0]);
            assert(after[j] == entries[j0]);
            assert(before(entries[i0].0, entries[j0].0));
        } else if i == at {
            assert(after[j] == entries[j0]);
            assert(before(plate, entries[j0].0));
        } else {
            assert(after[i] == entries[i0]);
            assert(before(entries[i0].0, plate));
        }
    }
}

impl IssuedDays {
    /// The plates as pairs of plate and days.
    pub open spec fn entries(&self) -> Seq<(Seq<u8>, Set<Day>)> {
        Seq::new(self.plates.len() as nat, |i: int| (self.plates[i].plate@, self.plates[i].days@))
    }

    /// The entries stand in the order of their plates, so that no plate
    /// is on record twice.
    pub open spec fn wf(&self) -> bool {
        plates_rise(self.entries())
    }

    /// A record with no tickets.
    pub fn new() -> (issued: IssuedDays)
        ensures
            issued.wf(),
            issued@ == Issued::empty(),
    {
        let issued = IssuedDays { plates: Vec::new() };
        assert(issued@ =~= Issued::empty());
        issued
    }

    /// The place of the entry of `plate` among the entries, and whether
    /// there is that entry. Where there is none, the place is where it
    /// would stand. It is found by halving the stretch in which it can
    /// lie.
    pub fn place(&self, plate: &Plate) -> (res: (usize, bool))
        requires
            self.wf(),
        ensures
            res.0 <= self.plates.len(),
            res.1 ==> res.0 < self.plates.len() && self.entries()[res.0 as int].0 == plate@,
            !res.1 ==> forall|j: int|
                0 <= j < res.0 ==> before(#[trigger] self.entries()[j].0, plate@),
            !res.1 ==> forall|j: int|
                res.0 <= j < self.plates.len() ==> before(plate@, #[trigger] self.entries()[j].0),
    {
        let mut low: usize = 0;
        let mut high: usize = self.plates.len();
        while low < high
            invariant
                low <= high <= self.plates.len(),
                self.wf(),
                forall|j: int| 0 <= j < low ==> before(#[trigger] self.entries()[j].0, plate@),
                forall|j: int|
                    high <= j < self.plates.len() ==> before(
                        plate@,
                        #[trigger] self.entries()[j].0,
                    ),
            decreases high - low,
        {
            let middle = low + (high - low) / 2;
            let (first, same) = compare(self.plates[middle].plate.as_slice(), plate.as_slice());
            let ghost here = self.entries()[middle as int].0;
            assert(here == self.plates[middle as int].plate@);
            if same {
                return (middle, true);
            }
            if first {
                assert forall|j: int| 0 <= j < middle + 1 implies before(
                    #[trigger] self.entries()[j].0,
                    plate@,
                ) by {
                    if j < middle {
                        assert(before(self.entries()[j].0, self.entries()[middle as int].0));
                        lemma_before_transitive(self.entries()[j].0, here, plate@);
                    }
                }
                low = middle + 1;
            } else {
                proof {
                    lemma_before_total(here, plate@);
                }
                assert forall|j: int| middle <= j < self.plates.len() implies before(
                    plate@,
                    #[trigger] self.entries()[j].0,
                ) by {
                    if j > middle {
                        assert(before(self.entries()[middle as int].0, self.entries()[j].0));
                        lemma_before_transitive(plate@, here, self.entries()[j].0);
                    }
                }
                high = middle;
            }
        }
        (low, false)
    }
}

impl View for IssuedDays {
    type V = Issued;

    open spec fn view(&self) -> Issued {
        as_map(self.entries())
    }
}

/// Whether none of the days from `first` to `last` is in `days`.
pub fn all_free(days: &BTreeSet<Day>, first: Day, last: Day) -> (free: bool)
    requires
        last < u32::MAX,
    ensures
        free == days_between(first, last).disjoint(days@),
{
    let mut d: Day = first;
    while d <= last
        invariant
            last < u32::MAX,
            first <= d,
            forall|k: Day| first <= k < d ==> !days@.contains(k),
        decreases last + 1 - d,
    {
        if days.contains(&d) {
            assert(days_between(first, last).contains(d));
            return false;
        }
        d += 1;
    }
    true
}

/// Adds the days from `first` to `last` to `days`.
pub fn add_days(days: &mut BTreeSet<Day>, first: Day, last: Day)
    requires
        last < u32::MAX,
    ensures
        final(days)@ == old(days)@.union(days_between(first, last)),
{
    let mut d: Day = first;
    while d <= last
        invariant
            last < u32::MAX,
            first <= d,
            first <= last ==> d <= last + 1,
            first > last ==> d == first,
            days@ =~= old(days)@.union(Set::new(|k: Day| first <= k < d)),
        decreases last + 1 - d,
    {
        days.insert(d);
        d += 1;
    }
    assert(days@ =~= old(days)@.union(days_between(first, last)));
}

impl Region {
    /// Decides whether a candidate ticket is issued: it is if and only if
    /// its plate has no ticket yet on any of the days it covers. Those days
    /// are then on record for the plate.
    pub fn assess_violation(issued: &mut IssuedDays, ticket: &Ticket) -> (emit: bool)
        requires
            old(issued).wf(),
        ensures
            final(issued).wf(),
            emit == days_free(old(issued)@, ticket@),
            final(issued)@ == assessed(old(issued)@, ticket@),
    {
        let first: Day = ticket.timestamp1 / SECONDS_PER_DAY;
        let last: Day = ticket.timestamp2 / SECONDS_PER_DAY;
        let ghost before = issued.entries();
        let (i, found) = issued.place(&ticket.plate);
        proof {
            lemma_plates_distinct(before);
        }
        match found {
            false => {
                let mut days: BTreeSet<Day> = BTreeSet::new();
                add_days(&mut days, first, last);
                proof {
                    lemma_place_is_free(before, ticket.plate@, i as int);
                    lemma_as_map_insert(before, i as int, ticket.plate@, days@);
                    lemma_plates_rise_insert(before, ticket.plate@, days@, i as int);
                    assert(days@ =~= Set::<Day>::empty().union(span(ticket@)));
                }
                issued.plates.insert(i, PlateDays { plate: copy_bytes(&ticket.plate), days });
                assert(issued.entries() =~= before.insert(i as int, (ticket.plate@, days@)));
                true
            },
            true => {
                proof {
                    assert(before[i as int].0 == ticket.plate@);
                    lemma_as_map_entry(before, i as int);
                }
                if !all_free(&issued.plates[i].days, first, last) {
                    return false;
                }
                add_days(&mut issued.plates[i].days, first, last);
                proof {
                    assert(issued.entries() =~= before.update(
                        i as int,
                        (ticket.plate@, before[i as int].1.union(span(ticket@))),
                    ));
                    lemma_as_map_update(before, i as int, before[i as int].1.union(span(ticket@)));
                }
                true
            },
        }
    }
}

} // verus!
