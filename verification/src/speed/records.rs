//! The observation log: for each plate and road, the mile at which the
//! plate was seen at each time.

use vstd::prelude::*;
use crate::assoc::{as_map, distinct_keys, lemma_as_map_absent, lemma_as_map_entry,
    lemma_as_map_insert, lemma_as_map_push, lemma_as_map_update, lemma_as_map_witness};
use crate::bytes::{before, compare, copy_bytes, lemma_before_irreflexive, lemma_before_total,
    lemma_before_transitive};
use crate::speed::domain::{is_ticket, ticket_between, Camera, Mile, Observation, Plate, Region,
    Road, Ticket, TicketView, Timestamp};

verus! {

/// The sightings of one plate on one road: the mile at each time.
pub type Timeline = Map<Timestamp, Mile>;

/// The whole log: a timeline for each plate and road that was seen.
pub type Log = Map<(Seq<u8>, Road), Timeline>;

/// One entry of a timeline.
#[derive(Clone, Copy, Debug, PartialEq, Eq)]
pub struct Sighting {
    pub time: Timestamp,
    pub mile: Mile,
}

/// The sightings of one plate on one road, in the order of their times.
#[derive(Debug)]
pub struct Track {
    pub plate: Plate,
    pub road: Road,
    pub sightings: Vec<Sighting>,
}

/// The observation log of a region.
#[derive(Debug)]
pub struct Records {
    pub tracks: Vec<Track>,
}

/// The timeline of `plate` on `road` in `log`, empty where the log has
/// none.
pub open spec fn timeline_of(log: Log, plate: Seq<u8>, road: Road) -> Timeline {
    if log.contains_key((plate, road)) {
        log[(plate, road)]
    } else {
        Map::empty()
    }
}

/// The latest time before `t` that `timeline` holds, if there is one.
pub open spec fn prior(timeline: Timeline, t: Timestamp) -> Option<Timestamp>
    decreases t,
{
    if t == 0 {
        None
    } else if timeline.contains_key((t - 1) as u32) {
        Some((t - 1) as u32)
    } else {
        prior(timeline, (t - 1) as u32)
    }
}

/// The earliest time after `t` that `timeline` holds, if there is one.
pub open spec fn later(timeline: Timeline, t: Timestamp) -> Option<Timestamp>
    decreases u32::MAX - t,
{
    if t == u32::MAX {
        None
    } else if timeline.contains_key((t + 1) as u32) {
        Some((t + 1) as u32)
    } else {
        later(timeline, (t + 1) as u32)
    }
}

/// The sighting that a new one at `t` is held against: the nearest before
/// it, or, only where there is none before, the nearest after it.
pub open spec fn neighbor(timeline: Timeline, t: Timestamp) -> Option<Timestamp> {
    match prior(timeline, t) {
        Some(p) => Some(p),
        None => later(timeline, t),
    }
}

/// A time `p` before `t` with nothing between them is the prior of `t`.
pub proof fn lemma_prior_is(timeline: Timeline, t: Timestamp, p: Timestamp)
    requires
        p < t,
        timeline.contains_key(p),
        forall|k: Timestamp| p < k < t ==> !timeline.contains_key(k),
    ensures
        prior(timeline, t) == Some(p),
    decreases t,
{
    if p != t - 1 {
        lemma_prior_is(timeline, (t - 1) as u32, p);
    }
}

/// Where nothing lies before `t`, it has no prior.
pub proof fn lemma_prior_none(timeline: Timeline, t: Timestamp)
    requires
        forall|k: Timestamp| k < t ==> !timeline.contains_key(k),
    ensures
        prior(timeline, t) is None,
    decreases t,
{
    if t != 0 {
        lemma_prior_none(timeline, (t - 1) as u32);
    }
}

/// A time `n` after `t` with nothing between them is the later of `t`.
pub proof fn lemma_later_is(timeline: Timeline, t: Timestamp, n: Timestamp)
    requires
        t < n,
        timeline.contains_key(n),
        forall|k: Timestamp| t < k < n ==> !timeline.contains_key(k),
    ensures
        later(timeline, t) == Some(n),
    decreases u32::MAX - t,
{
    if n != t + 1 {
        lemma_later_is(timeline, (t + 1) as u32, n);
    }
}

/// Where nothing lies after `t`, it has no later.
pub proof fn lemma_later_none(timeline: Timeline, t: Timestamp)
    requires
        forall|k: Timestamp| t < k ==> !timeline.contains_key(k),
    ensures
        later(timeline, t) is None,
    decreases u32::MAX - t,
{
    if t != u32::MAX {
        lemma_later_none(timeline, (t + 1) as u32);
    }
}

/// The prior of `t`, where there is one, is the greatest time of the
/// timeline below `t`.
pub proof fn lemma_prior_is_greatest_below(timeline: Timeline, t: Timestamp)
    ensures
        match prior(timeline, t) {
            Some(p) => p < t && timeline.contains_key(p) && forall|k: Timestamp|
                p < k < t ==> !timeline.contains_key(k),
            None => forall|k: Timestamp| k < t ==> !timeline.contains_key(k),
        },
    decreases t,
{
    if t != 0 {
        lemma_prior_is_greatest_below(timeline, (t - 1) as u32);
    }
}

/// The later of `t`, where there is one, is the least time of the timeline
/// above `t`.
pub proof fn lemma_later_is_least_above(timeline: Timeline, t: Timestamp)
    ensures
        match later(timeline, t) {
            Some(n) => t < n && timeline.contains_key(n) && forall|k: Timestamp|
                t < k < n ==> !timeline.contains_key(k),
            None => forall|k: Timestamp| t < k ==> !timeline.contains_key(k),
        },
    decreases u32::MAX - t,
{
    if t != u32::MAX {
        lemma_later_is_least_above(timeline, (t + 1) as u32);
    }
}

impl Track {
    /// The sightings as pairs of time and mile.
    pub open spec fn entries(&self) -> Seq<(Timestamp, Mile)> {
        Seq::new(
            self.sightings.len() as nat,
            |i: int| (self.sightings[i].time, self.sightings[i].mile),
        )
    }

    /// The timeline that the track stands for.
    pub open spec fn timeline(&self) -> Timeline {
        as_map(self.entries())
    }

    /// The sightings are in the strict order of their times.
    pub open spec fn ordered(&self) -> bool {
        forall|i: int, j: int|
            0 <= i < j < self.sightings.len() ==> self.sightings[i].time < self.sightings[j].time
    }

    /// An ordered track holds no time twice.
    pub proof fn lemma_ordered_distinct(&self)
        requires
            self.ordered(),
        ensures
            distinct_keys(self.entries()),
    {
        assert forall|i: int, j: int|
            0 <= i < self.entries().len() && 0 <= j < self.entries().len() && i != j implies self.entries()[i].0
            != self.entries()[j].0 by {
            if i < j {
                assert(self.sightings[i].time < self.sightings[j].time);
            } else {
                assert(self.sightings[j].time < self.sightings[i].time);
            }
        }
    }

    /// The place of `time` in the track: the number of sightings before
    /// it. It is found by halving the stretch in which it can lie.
    pub fn slot(&self, time: Timestamp) -> (at: usize)
        requires
            self.ordered(),
        ensures
            at <= self.sightings.len(),
            forall|j: int| 0 <= j < at ==> self.sightings[j].time < time,
            forall|j: int| at <= j < self.sightings.len() ==> self.sightings[j].time >= time,
    {
        let mut low: usize = 0;
        let mut high: usize = self.sightings.len();
        while low < high
            invariant
                low <= high <= self.sightings.len(),
                self.ordered(),
                forall|j: int| 0 <= j < low ==> self.sightings[j].time < time,
                forall|j: int| high <= j < self.sightings.len() ==> self.sightings[j].time >= time,
            decreases high - low,
        {
            let middle = low + (high - low) / 2;
            if self.sightings[middle].time < time {
                assert forall|j: int| 0 <= j < middle + 1 implies self.sightings[j].time < time by {
                    if j < middle {
                        assert(self.sightings[j].time < self.sightings[middle as int].time);
                    }
                }
                low = middle + 1;
            } else {
                assert forall|j: int| middle <= j < self.sightings.len() implies self.sightings[j].time
                    >= time by {
                    if j > middle {
                        assert(self.sightings[middle as int].time < self.sightings[j].time);
                    }
                }
                high = middle;
            }
        }
        low
    }

    /// A time that has its place at `at`, where another time stands or
    /// none, is not in the timeline.
    pub proof fn lemma_slot_is_free(&self, time: Timestamp, at: int)
        requires
            self.ordered(),
            0 <= at <= self.sightings.len(),
            forall|j: int| 0 <= j < at ==> self.sightings[j].time < time,
            forall|j: int| at <= j < self.sightings.len() ==> self.sightings[j].time >= time,
            at < self.sightings.len() ==> self.sightings[at].time != time,
        ensures
            !self.timeline().contains_key(time),
    {
        assert forall|j: int| 0 <= j < self.entries().len() implies self.entries()[j].0 != time by {
            if j < at {
                assert(self.sightings[j].time < time);
            } else if j > at {
                assert(self.sightings[at].time < self.sightings[j].time);
            }
        }
        lemma_as_map_absent(self.entries(), time);
    }
}

/// The key of a track: a plate and a road.
pub type Key = (Seq<u8>, Road);

/// Whether the key `a` comes before the key `b`: by the plate, in the
/// order of the dictionary, and for one plate by the road.
pub open spec fn key_before(a: Key, b: Key) -> bool {
    before(a.0, b.0) || (a.0 == b.0 && a.1 < b.1)
}

/// The keys of the entries are in strictly rising order.
pub open spec fn keys_rise(entries: Seq<(Key, Timeline)>) -> bool {
    forall|i: int, j: int|
        0 <= i < j < entries.len() ==> key_before(#[trigger] entries[i].0, #[trigger] entries[j].0)
}

/// No key comes before itself.
pub proof fn lemma_key_before_irreflexive(a: Key)
    ensures
        !key_before(a, a),
{
    lemma_before_irreflexive(a.0);
}

/// Of two different keys, one comes before the other.
pub proof fn lemma_key_before_total(a: Key, b: Key)
    ensures
        a == b || key_before(a, b) || key_before(b, a),
{
    lemma_before_total(a.0, b.0);
}

/// A key that comes before one that comes before a third comes before
/// the third.
pub proof fn lemma_key_before_transitive(a: Key, b: Key, c: Key)
    requires
        key_before(a, b),
        key_before(b, c),
    ensures
        key_before(a, c),
{
    if before(a.0, b.0) && before(b.0, c.0) {
        lemma_before_transitive(a.0, b.0, c.0);
    }
}

/// Rising keys are all different.
pub proof fn lemma_keys_distinct(entries: Seq<(Key, Timeline)>)
    requires
        keys_rise(entries),
    ensures
        distinct_keys(entries),
{
    assert forall|i: int, j: int|
        0 <= i < entries.len() && 0 <= j < entries.len() && i != j implies entries[i].0
        != entries[j].0 by {
        lemma_key_before_irreflexive(entries[i].0);
        if i < j {
            assert(key_before(entries[i].0, entries[j].0));
        } else {
            assert(key_before(entries[j].0, entries[i].0));
        }
    }
}

/// A key that has its place at `at` among rising keys, with no entry of
/// its own, is the key of no entry.
pub proof fn lemma_place_is_free(entries: Seq<(Key, Timeline)>, key: Key, at: int)
    requires
        0 <= at <= entries.len(),
        forall|j: int| 0 <= j < at ==> key_before(#[trigger] entries[j].0, key),
        forall|j: int| at <= j < entries.len() ==> key_before(key, #[trigger] entries[j].0),
    ensures
        forall|j: int| 0 <= j < entries.len() ==> entries[j].0 != key,
        !as_map(entries).contains_key(key),
{
    lemma_key_before_irreflexive(key);
    assert forall|j: int| 0 <= j < entries.len() implies entries[j].0 != key by {
        if j < at {
            assert(key_before(entries[j].0, key));
        } else {
            assert(key_before(key, entries[j].0));
        }
    }
    lemma_as_map_absent(entries, key);
}

/// An entry put at the place of its key among rising keys leaves them
/// rising.
pub proof fn lemma_keys_rise_insert(
    entries: Seq<(Key, Timeline)>,
    key: Key,
    timeline: Timeline,
    at: int,
)
    requires
        keys_rise(entries),
        0 <= at <= entries.len(),
        forall|j: int| 0 <= j < at ==> key_before(#[trigger] entries[j].0, key),
        forall|j: int| at <= j < entries.len() ==> key_before(key, #[trigger] entries[j].0),
    ensures
        keys_rise(entries.insert(at, (key, timeline))),
{
    let after = entries.insert(at, (key, timeline));
    assert forall|i: int, j: int| 0 <= i < j < after.len() implies key_before(
        #[trigger] after[i].0,
        #[trigger] after[j].0,
    ) by {
        let i0 = if i < at { i } else { i - 1 };
        let j0 = if j < at { j } else { j - 1 };
        if i != at && j != at {
            assert(after[i] == entries[i0]);
            assert(after[j] == entries[j0]);
            assert(key_before(entries[i0].0, entries[j0].0));
        } else if i == at {
            assert(after[j] == entries[j0]);
            assert(key_before(key, entries[j0].0));
        } else {
            assert(after[i] == entries[i0]);
            assert(key_before(entries[i0].0, key));
        }
    }
}

impl Records {
    /// The tracks as pairs of key and timeline.
    pub open spec fn entries(&self) -> Seq<((Seq<u8>, Road), Timeline)> {
        Seq::new(
            self.tracks.len() as nat,
            |i: int| ((self.tracks[i].plate@, self.tracks[i].road), self.tracks[i].timeline()),
        )
    }

    /// The tracks stand in the order of their keys, so that no plate and
    /// road has two, and each track is in order.
    pub open spec fn wf(&self) -> bool {
        &&& keys_rise(self.entries())
        &&& forall|i: int| 0 <= i < self.tracks.len() ==> (#[trigger] self.tracks[i]).ordered()
    }

    /// An empty log.
    pub fn new() -> (records: Records)
        ensures
            records.wf(),
            records@ == Log::empty(),
    {
        let records = Records { tracks: Vec::new() };
        assert(records@ =~= Log::empty());
        records
    }

    /// Whether the log holds a sighting of `plate` on `road` at `time`.
    pub fn holds(&self, plate: &Plate, road: Road, time: Timestamp) -> (held: bool)
        requires
            self.wf(),
        ensures
            held == timeline_of(self@, plate@, road).contains_key(time),
    {
        match self.find(plate, road) {
            None => {
                proof {
                    lemma_as_map_absent(self.entries(), (plate@, road));
                }
                false
            },
            Some(i) => {
                let ghost track = self.tracks[i as int];
                proof {
                    lemma_keys_distinct(self.entries());
                    assert(self.entries()[i as int].0 == (plate@, road));
                    lemma_as_map_entry(self.entries(), i as int);
                    track.lemma_ordered_distinct();
                }
                let at = self.tracks[i].slot(time);
                if at < self.tracks[i].sightings.len() && self.tracks[i].sightings[at].time == time {
                    proof {
                        assert(track.entries()[at as int].0 == time);
                        lemma_as_map_entry(track.entries(), at as int);
                    }
                    true
                } else {
                    proof {
                        track.lemma_slot_is_free(time, at as int);
                    }
                    false
                }
            },
        }
    }

    /// The place of the track of `plate` on `road` among the tracks, and
    /// whether the log has that track. Where it has none, the place is
    /// where it would stand. It is found by halving the stretch in which
    /// it can lie.
    pub fn place(&self, plate: &Plate, road: Road) -> (res: (usize, bool))
        requires
            self.wf(),
        ensures
            res.0 <= self.tracks.len(),
            res.1 ==> res.0 < self.tracks.len() && self.entries()[res.0 as int].0 == (plate@, road),
            !res.1 ==> forall|j: int|
                0 <= j < res.0 ==> key_before(#[trigger] self.entries()[j].0, (plate@, road)),
            !res.1 ==> forall|j: int|
                res.0 <= j < self.tracks.len() ==> key_before(
                    (plate@, road),
                    #[trigger] self.entries()[j].0,
                ),
    {
        let ghost key = (plate@, road);
        let mut low: usize = 0;
        let mut high: usize = self.tracks.len();
        while low < high
            invariant
                low <= high <= self.tracks.len(),
                self.wf(),
                key == (plate@, road),
                forall|j: int| 0 <= j < low ==> key_before(#[trigger] self.entries()[j].0, key),
                forall|j: int|
                    high <= j < self.tracks.len() ==> key_before(
                        key,
                        #[trigger] self.entries()[j].0,
                    ),
            decreases high - low,
        {
            let middle = low + (high - low) / 2;
            let (first, same) = compare(self.tracks[middle].plate.as_slice(), plate.as_slice());
            let there = self.tracks[middle].road;
            let ghost here = self.entries()[middle as int].0;
            assert(here == (self.tracks[middle as int].plate@, there));
            if same && there == road {
                return (middle, true);
            }
            if first || (same && there < road) {
                assert forall|j: int| 0 <= j < middle + 1 implies key_before(
                    #[trigger] self.entries()[j].0,
                    key,
                ) by {
                    if j < middle {
                        assert(key_before(self.entries()[j].0, self.entries()[middle as int].0));
                        lemma_key_before_transitive(self.entries()[j].0, here, key);
                    }
                }
                low = middle + 1;
            } else {
                proof {
                    lemma_key_before_total(here, key);
                }
                assert forall|j: int| middle <= j < self.tracks.len() implies key_before(
                    key,
                    #[trigger] self.entries()[j].0,
                ) by {
                    if j > middle {
                        assert(key_before(self.entries()[middle as int].0, self.entries()[j].0));
                        lemma_key_before_transitive(key, here, self.entries()[j].0);
                    }
                }
                high = middle;
            }
        }
        (low, false)
    }

    /// The index of the track of `plate` on `road`, if the log has one.
    pub fn find(&self, plate: &Plate, road: Road) -> (found: Option<usize>)
        requires
            self.wf(),
        ensures
            match found {
                Some(i) => i < self.tracks.len() && self.tracks[i as int].plate@ == plate@
                    && self.tracks[i as int].road == road,
                None => forall|j: int|
                    0 <= j < self.tracks.len() ==> self.entries()[j].0 != (plate@, road),
            },
    {
        let (at, found) = self.place(plate, road);
        if found {
            Some(at)
        } else {
            proof {
                lemma_place_is_free(self.entries(), (plate@, road), at as int);
            }
            None
        }
    }
}

/// The ticket, if any, that a new sighting of `plate` by `camera` at `t`
/// gives rise to, against a timeline that does not hold `t` yet: the one
/// between the new sighting and its [`neighbor`], where it has one and the
/// speed between them is above the limit.
pub open spec fn candidate(timeline: Timeline, camera: Camera, plate: Seq<u8>, t: Timestamp)
    -> Option<TicketView> {
    match neighbor(timeline, t) {
        Some(n) => ticket_between(camera, plate, t, n, timeline[n]),
        None => None,
    }
}

/// The log after a sighting of `plate` on `road` at mile `mile` at `t`: a
/// time that the timeline already holds is left as it is.
pub open spec fn logged(log: Log, plate: Seq<u8>, road: Road, t: Timestamp, mile: Mile) -> Log {
    let timeline = timeline_of(log, plate, road);
    if timeline.contains_key(t) {
        log
    } else {
        log.insert((plate, road), timeline.insert(t, mile))
    }
}

impl Region {
    /// Enters an observation into the log and returns the ticket that it
    /// gives rise to, if any. An observation whose plate, road and time
    /// are already on record changes nothing and gives no ticket.
    pub fn record_observation(records: &mut Records, obs: &Observation) -> (res: Option<Ticket>)
        requires
            old(records).wf(),
        ensures
            final(records).wf(),
            final(records)@ == logged(
                old(records)@,
                obs.plate@,
                obs.camera.road,
                obs.time,
                obs.camera.mile,
            ),
            is_ticket(
                res,
                if timeline_of(old(records)@, obs.plate@, obs.camera.road).contains_key(obs.time) {
                    None
                } else {
                    candidate(
                        timeline_of(old(records)@, obs.plate@, obs.camera.road),
                        obs.camera,
                        obs.plate@,
                        obs.time,
                    )
                },
            ),
    {
        let road = obs.camera.road;
        let sighting = Sighting { time: obs.time, mile: obs.camera.mile };
        let ghost key = (obs.plate@, road);
        let ghost before = records.entries();
        let (i, found) = records.place(&obs.plate, road);
        proof {
            lemma_keys_distinct(before);
        }
        match found {
            false => {
                let mut sightings: Vec<Sighting> = Vec::new();
                sightings.push(sighting);
                let track = Track { plate: copy_bytes(&obs.plate), road, sightings };
                proof {
                    lemma_place_is_free(before, key, i as int);
                    assert(track.entries() =~= seq![(obs.time, obs.camera.mile)]);
                    lemma_as_map_push(Seq::empty(), obs.time, obs.camera.mile);
                    assert(Seq::<(Timestamp, Mile)>::empty().push((obs.time, obs.camera.mile))
                        =~= track.entries());
                    assert(as_map(Seq::<(Timestamp, Mile)>::empty()) =~= Timeline::empty());
                    lemma_as_map_insert(before, i as int, key, track.timeline());
                    lemma_keys_rise_insert(before, key, track.timeline(), i as int);
                    lemma_prior_none(Timeline::empty(), obs.time);
                    lemma_later_none(Timeline::empty(), obs.time);
                }
                records.tracks.insert(i, track);
                proof {
                    assert(records.entries() =~= before.insert(i as int, (key, track.timeline())));
                    assert forall|j: int| 0 <= j < records.tracks.len() implies (
                    #[trigger] records.tracks[j]).ordered() by {
                        if j < i {
                            assert(records.tracks[j] == old(records).tracks[j]);
                        } else if j > i {
                            assert(records.tracks[j] == old(records).tracks[j - 1]);
                        }
                    }
                }
                None
            },
            true => {
                let ghost track = records.tracks[i as int];
                let ghost timeline = track.timeline();
                proof {
                    assert(before[i as int].0 == key);
                    lemma_as_map_entry(before, i as int);
                    track.lemma_ordered_distinct();
                }
                let at = records.tracks[i].slot(obs.time);
                let n = records.tracks[i].sightings.len();
                if at < n && records.tracks[i].sightings[at].time == obs.time {
                    proof {
                        assert(track.entries()[at as int].0 == obs.time);
                        lemma_as_map_entry(track.entries(), at as int);
                    }
                    return None;
                }
                proof {
                    track.lemma_slot_is_free(obs.time, at as int);
                }
                let res = if at > 0 {
                    let near = records.tracks[i].sightings[at - 1];
                    proof {
                        assert(track.entries()[at - 1] == (near.time, near.mile));
                        lemma_as_map_entry(track.entries(), at - 1);
                        assert forall|k: Timestamp| near.time < k < obs.time implies !timeline.contains_key(
                            k,
                        ) by {
                            if timeline.contains_key(k) {
                                let j = lemma_as_map_witness(track.entries(), k);
                                if j < at - 1 {
                                    assert(track.sightings[j].time < track.sightings[at - 1].time);
                                } else if j >= at {
                                    assert(track.sightings[j].time >= obs.time);
                                }
                            }
                        }
                        lemma_prior_is(timeline, obs.time, near.time);
                    }
                    Region::compute_ticket(obs.camera, &obs.plate, obs.time, near.time, near.mile)
                } else if at < n {
                    let near = records.tracks[i].sightings[at];
                    proof {
                        assert(track.entries()[at as int] == (near.time, near.mile));
                        lemma_as_map_entry(track.entries(), at as int);
                        assert forall|k: Timestamp| k < obs.time implies !timeline.contains_key(k) by {
                            if timeline.contains_key(k) {
                                let j = lemma_as_map_witness(track.entries(), k);
                                assert(track.sightings[j].time >= obs.time);
                            }
                        }
                        lemma_prior_none(timeline, obs.time);
                        assert forall|k: Timestamp| obs.time < k < near.time implies !timeline.contains_key(
                            k,
                        ) by {
                            if timeline.contains_key(k) {
                                let j = lemma_as_map_witness(track.entries(), k);
                                if j > at {
                                    assert(track.sightings[at as int].time < track.sightings[j].time);
                                }
                            }
                        }
                        lemma_later_is(timeline, obs.time, near.time);
                    }
                    Region::compute_ticket(obs.camera, &obs.plate, obs.time, near.time, near.mile)
                } else {
                    proof {
                        assert(track.entries() =~= Seq::empty());
                        assert(timeline =~= Timeline::empty());
                        lemma_prior_none(timeline, obs.time);
                        lemma_later_none(timeline, obs.time);
                    }
                    None
                };
                records.tracks[i].sightings.insert(at, sighting);
                proof {
                    let after = records.tracks[i as int];
                    assert(after.entries() =~= track.entries().insert(
                        at as int,
                        (obs.time, obs.camera.mile),
                    ));
                    lemma_as_map_insert(
                        track.entries(),
                        at as int,
                        obs.time,
                        obs.camera.mile,
                    );
                    assert(after.ordered()) by {
                        assert forall|a: int, b: int|
                            0 <= a < b < after.sightings.len() implies after.sightings[a].time
                            < after.sightings[b].time by {
                            let a0 = if a < at { a } else { a - 1 };
                            let b0 = if b < at { b } else { b - 1 };
                            if a != at && b != at {
                                assert(track.sightings[a0].time < track.sightings[b0].time);
                            } else if a == at {
                                assert(track.sightings[b0].time >= obs.time);
                            } else {
                                assert(track.sightings[a0].time < obs.time);
                            }
                        }
                    }
                    assert(records.entries() =~= before.update(
                        i as int,
                        (key, timeline.insert(obs.time, obs.camera.mile)),
                    ));
                    lemma_as_map_update(
                        before,
                        i as int,
                        timeline.insert(obs.time, obs.camera.mile),
                    );
                    assert forall|j: int| 0 <= j < records.tracks.len() implies (
                    #[trigger] records.tracks[j]).ordered() by {
                        if j != i {
                            assert(records.tracks[j] == old(records).tracks[j]);
                        }
                    }
                }
                res
            },
        }
    }
}

impl View for Records {
    type V = Log;

    open spec fn view(&self) -> Log {
        as_map(self.entries())
    }
}

} // verus!
