//! The key-value store: datagrams that set a key or ask for one.

use vstd::prelude::*;
use crate::assoc::{as_map, distinct_keys, lemma_as_map_absent, lemma_as_map_entry,
    lemma_as_map_push, lemma_as_map_update};
use crate::bytes::{copy_bytes, part, same_bytes};

verus! {

/// The size from which on a datagram is too large to be a request.
pub const TOO_LARGE: usize = 1000;

/// The byte that parts a key from its value.
pub const EQUALS: u8 = 0x3d;

/// What a datagram asks for.
#[derive(Clone, Debug, PartialEq, Eq)]
pub enum Command {
    /// The value of a key.
    Get { key: Vec<u8> },
    /// That a key be given a value.
    Put { key: Vec<u8>, value: Vec<u8> },
}

/// What a [`Command`] says.
pub enum CommandView {
    Get { key: Seq<u8> },
    Put { key: Seq<u8>, value: Seq<u8> },
}

impl View for Command {
    type V = CommandView;

    open spec fn view(&self) -> CommandView {
        match self {
            Command::Get { key } => CommandView::Get { key: key@ },
            Command::Put { key, value } => CommandView::Put { key: key@, value: value@ },
        }
    }
}

/// Where the first equals sign of `bytes` stands, at or after `from`;
/// the length of `bytes` where there is none.
pub open spec fn first_equals(bytes: Seq<u8>, from: int) -> int
    decreases bytes.len() - from,
{
    if from < 0 || from >= bytes.len() {
        bytes.len() as int
    } else if bytes[from] == EQUALS {
        from
    } else {
        first_equals(bytes, from + 1)
    }
}

/// What a datagram asks for. One of a thousand bytes or more asks for
/// nothing. One with an equals sign sets the key before the first such
/// sign to what begins with that sign. Any other asks for the key that it
/// holds.
pub open spec fn command_of(datagram: Seq<u8>) -> Option<CommandView> {
    let at = first_equals(datagram, 0);
    if datagram.len() >= TOO_LARGE {
        None
    } else if at < datagram.len() {
        Some(
            CommandView::Put {
                key: datagram.subrange(0, at),
                value: datagram.subrange(at, datagram.len() as int),
            },
        )
    } else {
        Some(CommandView::Get { key: datagram })
    }
}

/// The first equals sign is an equals sign, and none stands before it.
pub proof fn lemma_first_equals(bytes: Seq<u8>, from: int)
    requires
        0 <= from <= bytes.len(),
    ensures
        from <= first_equals(bytes, from) <= bytes.len(),
        first_equals(bytes, from) < bytes.len() ==> bytes[first_equals(bytes, from)] == EQUALS,
        forall|i: int| from <= i < first_equals(bytes, from) ==> bytes[i] != EQUALS,
    decreases bytes.len() - from,
{
    if from < bytes.len() && bytes[from] != EQUALS {
        lemma_first_equals(bytes, from + 1);
    }
}

/// Reads a datagram as a command: see [`command_of`].
pub fn read_command(datagram: &[u8]) -> (res: Option<Command>)
    ensures
        match res {
            Some(command) => command_of(datagram@) == Some(command@),
            None => command_of(datagram@) is None,
        },
{
    if datagram.len() >= TOO_LARGE {
        return None;
    }
    let mut at: usize = 0;
    while at < datagram.len() && datagram[at] != EQUALS
        invariant
            at <= datagram.len(),
            first_equals(datagram@, 0) == first_equals(datagram@, at as int),
        decreases datagram.len() - at,
    {
        at += 1;
    }
    if at < datagram.len() {
        Some(Command::Put { key: part(datagram, 0, at), value: part(datagram, at, datagram.len()) })
    } else {
        let key = part(datagram, 0, datagram.len());
        assert(key@ =~= datagram@);
        Some(Command::Get { key })
    }
}

/// The contents of a store: the value of each key that has one.
pub type Contents = Map<Seq<u8>, Seq<u8>>;

/// The key whose value tells the version of the store. It cannot be set.
pub open spec fn version_key() -> Seq<u8> {
    seq![0x76u8, 0x65u8, 0x72u8, 0x73u8, 0x69u8, 0x6fu8, 0x6eu8]
}

/// The version of the store.
pub open spec fn version() -> Seq<u8> {
    seq![0x30u8]
}

/// The contents after a command: setting any key but the version gives
/// it the value, and nothing else changes anything.
pub open spec fn applied(contents: Contents, command: CommandView) -> Contents {
    match command {
        CommandView::Put { key, value } => if key == version_key() {
            contents
        } else {
            contents.insert(key, value)
        },
        CommandView::Get { key } => contents,
    }
}

/// The answer to a command: the value of the key that was asked for, if
/// it has one.
pub open spec fn answer(contents: Contents, command: CommandView) -> Option<Seq<u8>> {
    match command {
        CommandView::Get { key } => if contents.contains_key(key) {
            Some(contents[key])
        } else {
            None
        },
        CommandView::Put { key, value } => None,
    }
}

/// A store of values by key.
pub struct Store {
    entries: Vec<(Vec<u8>, Vec<u8>)>,
}

impl Store {
    /// The entries as pairs of sequences.
    pub closed spec fn pairs(&self) -> Seq<(Seq<u8>, Seq<u8>)> {
        Seq::new(self.entries.len() as nat, |i: int| (self.entries[i].0@, self.entries[i].1@))
    }

    /// No key is held twice.
    pub closed spec fn wf(&self) -> bool {
        distinct_keys(self.pairs())
    }

    /// A store that holds its version and nothing else.
    pub fn new() -> (store: Store)
        ensures
            store.wf(),
            store@ == Contents::empty().insert(version_key(), version()),
    {
        let mut key: Vec<u8> = Vec::new();
        key.push(0x76);
        key.push(0x65);
        key.push(0x72);
        key.push(0x73);
        key.push(0x69);
        key.push(0x6f);
        key.push(0x6e);
        let mut value: Vec<u8> = Vec::new();
        value.push(0x30);
        let mut entries: Vec<(Vec<u8>, Vec<u8>)> = Vec::new();
        entries.push((key, value));
        let store = Store { entries };
        proof {
            assert(key@ =~= version_key());
            assert(value@ =~= version());
            assert(store.pairs() =~= Seq::empty().push((version_key(), version())));
            lemma_as_map_push(Seq::empty(), version_key(), version());
            assert(as_map(Seq::<(Seq<u8>, Seq<u8>)>::empty()) =~= Contents::empty());
        }
        store
    }

    /// The index of the entry of `key`, if there is one.
    fn find(&self, key: &Vec<u8>) -> (found: Option<usize>)
        ensures
            match found {
                Some(i) => i < self.entries.len() && self.entries[i as int].0@ == key@,
                None => forall|j: int| 0 <= j < self.entries.len() ==> self.pairs()[j].0 != key@,
            },
    {
        let mut i: usize = 0;
        while i < self.entries.len()
            invariant
                i <= self.entries.len(),
                forall|j: int| 0 <= j < i ==> self.pairs()[j].0 != key@,
            decreases self.entries.len() - i,
        {
            if same_bytes(&self.entries[i].0, key) {
                return Some(i);
            }
            i += 1;
        }
        None
    }

    /// Carries out a command and returns the answer to it: see
    /// [`applied`] and [`answer`].
    pub fn apply(&mut self, command: Command) -> (reply: Option<Vec<u8>>)
        requires
            old(self).wf(),
        ensures
            final(self).wf(),
            final(self)@ == applied(old(self)@, command@),
            match reply {
                Some(value) => answer(old(self)@, command@) == Some(value@),
                None => answer(old(self)@, command@) is None,
            },
    {
        let ghost before = self.pairs();
        match command {
            Command::Get { key } => match self.find(&key) {
                Some(i) => {
                    proof {
                        assert(before[i as int].0 == key@);
                        lemma_as_map_entry(before, i as int);
                    }
                    Some(copy_bytes(&self.entries[i].1))
                },
                None => {
                    proof {
                        lemma_as_map_absent(before, key@);
                    }
                    None
                },
            },
            Command::Put { key, value } => {
                if is_version_key(&key) {
                    return None;
                }
                match self.find(&key) {
                    Some(i) => {
                        proof {
                            assert(before[i as int].0 == key@);
                            lemma_as_map_update(before, i as int, value@);
                        }
                        self.entries[i].1 = value;
                        assert(self.pairs() =~= before.update(i as int, (key@, value@)));
                    },
                    None => {
                        proof {
                            lemma_as_map_absent(before, key@);
                            lemma_as_map_push(before, key@, value@);
                        }
                        self.entries.push((key, value));
                        assert(self.pairs() =~= before.push((key@, value@)));
                    },
                }
                None
            },
        }
    }
}

impl View for Store {
    type V = Contents;

    closed spec fn view(&self) -> Contents {
        as_map(self.pairs())
    }
}

/// Whether `key` is the key of the version.
pub fn is_version_key(key: &Vec<u8>) -> (res: bool)
    ensures
        res == (key@ == version_key()),
{
    let same = key.len() == 7 && key[0] == 0x76 && key[1] == 0x65 && key[2] == 0x72 && key[3]
        == 0x73 && key[4] == 0x69 && key[5] == 0x6f && key[6] == 0x6e;
    proof {
        if same {
            assert(key@ =~= version_key());
        }
    }
    same
}

} // verus!
