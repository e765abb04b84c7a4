//! The chat room: who is in it, and what is said to whom when someone
//! enters, speaks or leaves. The people in the room are kept in the
//! order of their names.

use vstd::prelude::*;
use vstd::string::StringExecFns;
use vstd::string::StringSliceAdditionalSpecFns;
use crate::bytes::{before, compare, lemma_before_irreflexive, lemma_before_total,
    lemma_before_transitive};
use crate::chat::person::Person;

verus! {

/// What is said in the room: a line of text.
pub type Message = String;

/// The bytes of a name.
pub open spec fn bytes_of(name: Seq<char>) -> Seq<u8> {
    vstd::utf8::encode_utf8(name)
}

/// The names are in the strict order of their bytes.
pub open spec fn in_order(names: Seq<Seq<char>>) -> bool {
    forall|i: int, j: int|
        0 <= i < j < names.len() ==> before(bytes_of(#[trigger] names[i]), bytes_of(
            #[trigger] names[j],
        ))
}

/// The names with a separator between each two of them.
pub open spec fn listing(names: Seq<Seq<char>>) -> Seq<char>
    decreases names.len(),
{
    if names.len() == 0 {
        Seq::empty()
    } else if names.len() == 1 {
        names[0]
    } else {
        listing(names.drop_last()) + ", "@ + names.last()
    }
}

/// What the room is told when someone enters.
pub open spec fn entered(name: Seq<char>) -> Seq<char> {
    "* "@ + name + " has entered the room\n"@
}

/// What someone who enters is told: who is in the room.
pub open spec fn contains(names: Seq<Seq<char>>) -> Seq<char> {
    "* The room contains: "@ + listing(names) + "\n"@
}

/// What the room is told when someone leaves.
pub open spec fn left(name: Seq<char>) -> Seq<char> {
    "* "@ + name + " has left the room\n"@
}

/// What the room is told when someone speaks.
pub open spec fn said(name: Seq<char>, words: Seq<char>) -> Seq<char> {
    "["@ + name + "] "@ + words + "\n"@
}

/// The people in the room.
pub struct Room {
    pub people: Vec<Person>,
}

impl View for Room {
    type V = Seq<Seq<char>>;

    open spec fn view(&self) -> Seq<Seq<char>> {
        Seq::new(self.people.len() as nat, |i: int| self.people[i].name@)
    }
}

impl Room {
    /// The people are in the order of their names, each once.
    pub open spec fn wf(&self) -> bool {
        in_order(self@)
    }

    /// An empty room.
    pub fn new() -> (room: Room)
        ensures
            room.wf(),
            room@ == Seq::<Seq<char>>::empty(),
    {
        let room = Room { people: Vec::new() };
        assert(room@ =~= Seq::<Seq<char>>::empty());
        room
    }

    /// The place of a name among the people: how many of them come before
    /// it, and whether it is the name of one of them.
    pub fn place(&self, name: &str) -> (res: (usize, bool))
        requires
            self.wf(),
        ensures
            res.0 <= self@.len(),
            forall|i: int| 0 <= i < res.0 ==> before(bytes_of(#[trigger] self@[i]), bytes_of(name@)),
            forall|i: int|
                res.0 + (if res.1 {
                    1int
                } else {
                    0int
                }) <= i < self@.len() ==> before(bytes_of(name@), bytes_of(#[trigger] self@[i])),
            res.1 ==> res.0 < self@.len() && self@[res.0 as int] == name@,
            res.1 == self@.contains(name@),
    {
        let wanted = name.as_bytes();
        let mut at: usize = 0;
        while at < self.people.len()
            invariant
                at <= self.people.len(),
                self.wf(),
                wanted@ == bytes_of(name@),
                forall|i: int| 0 <= i < at ==> before(bytes_of(#[trigger] self@[i]), bytes_of(name@)),
            decreases self.people.len() - at,
        {
            let here = self.people[at].name.as_str().as_bytes();
            assert(here@ == bytes_of(self@[at as int]));
            let (first, same) = compare(here, wanted);
            if !first {
                proof {
                    lemma_before_total(here@, wanted@);
                    assert forall|i: int|
                        at + (if same {
                            1int
                        } else {
                            0int
                        }) <= i < self@.len() implies before(
                        bytes_of(name@),
                        bytes_of(#[trigger] self@[i]),
                    ) by {
                        if i > at {
                            assert(before(bytes_of(self@[at as int]), bytes_of(self@[i])));
                            if !same {
                                lemma_before_transitive(
                                    bytes_of(name@),
                                    bytes_of(self@[at as int]),
                                    bytes_of(self@[i]),
                                );
                            }
                        }
                    }
                    if same {
                        vstd::utf8::encode_utf8_decode_utf8(name@);
                        vstd::utf8::encode_utf8_decode_utf8(self@[at as int]);
                    }
                    self.lemma_absent_unless(name@, at as int, same);
                }
                return (at, same);
            }
            at += 1;
        }
        proof {
            self.lemma_absent_unless(name@, at as int, false);
        }
        (at, false)
    }

    /// A name that has its place at `at` among the people is the name of
    /// one of them only if it is the name of the one at `at`.
    proof fn lemma_absent_unless(&self, name: Seq<char>, at: int, same: bool)
        requires
            0 <= at <= self@.len(),
            same ==> at < self@.len() && self@[at] == name,
            forall|i: int| 0 <= i < at ==> before(bytes_of(#[trigger] self@[i]), bytes_of(name)),
            forall|i: int|
                at + (if same {
                    1int
                } else {
                    0int
                }) <= i < self@.len() ==> before(bytes_of(name), bytes_of(#[trigger] self@[i])),
        ensures
            same == self@.contains(name),
    {
        if self@.contains(name) {
            let i = choose|i: int| 0 <= i < self@.len() && self@[i] == name;
            lemma_before_irreflexive(bytes_of(name));
        }
    }

    /// Lets a person into the room. Returns what the others are told, and
    /// what the person is told: who was in the room before. Someone who is
    /// in the room already is not there twice.
    pub fn enter(&mut self, person: Person) -> (res: (Message, Message))
        requires
            old(self).wf(),
        ensures
            final(self).wf(),
            final(self)@.to_set() == old(self)@.to_set().insert(person.name@),
            old(self)@.contains(person.name@) ==> final(self)@ == old(self)@,
            res.0@ == entered(person.name@),
            res.1@ == contains(old(self)@),
    {
        let mut announcement = String::from_str("* ");
        announcement.append(person.name.as_str());
        announcement.append(" has entered the room\n");
        let mut greeting = String::from_str("* The room contains: ");
        let names = self.names();
        greeting.append(names.as_str());
        greeting.append("\n");
        let (at, present) = self.place(person.name.as_str());
        if !present {
            let ghost before_names = self@;
            self.people.insert(at, person);
            proof {
                assert(self@ =~= before_names.insert(at as int, person.name@));
                assert forall|i: int, j: int| 0 <= i < j < self@.len() implies before(
                    bytes_of(#[trigger] self@[i]),
                    bytes_of(#[trigger] self@[j]),
                ) by {
                    let i0 = if i < at { i } else { i - 1 };
                    let j0 = if j < at { j } else { j - 1 };
                    if i != at && j != at {
                        assert(before(bytes_of(before_names[i0]), bytes_of(before_names[j0])));
                    } else if i == at {
                        assert(before(bytes_of(person.name@), bytes_of(before_names[j0])));
                    } else {
                        assert(before(bytes_of(before_names[i0]), bytes_of(person.name@)));
                    }
                }
                assert(self@.to_set() =~= before_names.to_set().insert(person.name@)) by {
                    assert forall|n: Seq<char>| self@.contains(n) <==> (before_names.contains(n) || n
                        == person.name@) by {
                        if self@.contains(n) {
                            let i = choose|i: int| 0 <= i < self@.len() && self@[i] == n;
                            if i != at {
                                let i0 = if i < at { i } else { i - 1 };
                                assert(before_names[i0] == n);
                            }
                        }
                        if before_names.contains(n) {
                            let i = choose|i: int| 0 <= i < before_names.len() && before_names[i]
                                == n;
                            let i1 = if i < at { i } else { i + 1 };
                            assert(self@[i1] == n);
                        }
                        assert(self@[at as int] == person.name@);
                    }
                }
            }
        } else {
            assert(self@.to_set() =~= self@.to_set().insert(person.name@));
        }
        (announcement, greeting)
    }

    /// Lets a person out of the room. Returns what the others are told.
    pub fn leave(&mut self, person: &Person) -> (res: Message)
        requires
            old(self).wf(),
        ensures
            final(self).wf(),
            final(self)@.to_set() == old(self)@.to_set().remove(person.name@),
            !old(self)@.contains(person.name@) ==> final(self)@ == old(self)@,
            res@ == left(person.name@),
    {
        let mut announcement = String::from_str("* ");
        announcement.append(person.name.as_str());
        announcement.append(" has left the room\n");
        let (at, present) = self.place(person.name.as_str());
        if present {
            let ghost before_names = self@;
            self.people.remove(at);
            proof {
                assert(self@ =~= before_names.remove(at as int));
                lemma_before_irreflexive(bytes_of(person.name@));
                assert forall|i: int, j: int| 0 <= i < j < self@.len() implies before(
                    bytes_of(#[trigger] self@[i]),
                    bytes_of(#[trigger] self@[j]),
                ) by {
                    let i0 = if i < at { i } else { i + 1 };
                    let j0 = if j < at { j } else { j + 1 };
                    assert(before(bytes_of(before_names[i0]), bytes_of(before_names[j0])));
                }
                assert(self@.to_set() =~= before_names.to_set().remove(person.name@)) by {
                    assert forall|n: Seq<char>| self@.contains(n) <==> (before_names.contains(n) && n
                        != person.name@) by {
                        if self@.contains(n) {
                            let i = choose|i: int| 0 <= i < self@.len() && self@[i] == n;
                            let i0 = if i < at { i } else { i + 1 };
                            assert(before_names[i0] == n);
                            if i0 < at {
                                assert(before(bytes_of(before_names[i0]), bytes_of(person.name@)));
                            } else {
                                assert(before(bytes_of(person.name@), bytes_of(before_names[i0])));
                            }
                        }
                        if before_names.contains(n) && n != person.name@ {
                            let i = choose|i: int| 0 <= i < before_names.len() && before_names[i]
                                == n;
                            let i1 = if i < at { i } else { i - 1 };
                            assert(self@[i1] == n);
                        }
                    }
                }
            }
        } else {
            assert(self@.to_set() =~= self@.to_set().remove(person.name@));
        }
        announcement
    }

    /// The names of the people in the room, with a comma and a blank
    /// between each two of them.
    pub fn names(&self) -> (res: String)
        ensures
            res@ == listing(self@),
    {
        let mut res = String::new();
        let mut i: usize = 0;
        assert(self@.subrange(0, 0) =~= Seq::<Seq<char>>::empty());
        while i < self.people.len()
            invariant
                i <= self.people.len(),
                res@ == listing(self@.subrange(0, i as int)),
            decreases self.people.len() - i,
        {
            if i > 0 {
                res.append(", ");
            }
            res.append(self.people[i].name.as_str());
            proof {
                let now = self@.subrange(0, i + 1);
                assert(now.drop_last() =~= self@.subrange(0, i as int));
                assert(now.last() == self@[i as int]);
                if i == 0 {
                    assert(res@ =~= self@[0]);
                }
            }
            i += 1;
        }
        assert(self@.subrange(0, self@.len() as int) =~= self@);
        res
    }
}

/// What the room is told when `person` says `words`.
pub fn say(person: &Person, words: &str) -> (res: Message)
    ensures
        res@ == said(person.name@, words@),
{
    let mut line = String::from_str("[");
    line.append(person.name.as_str());
    line.append("] ");
    line.append(words);
    line.append("\n");
    line
}

} // verus!
