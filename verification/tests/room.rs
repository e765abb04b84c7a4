use protohackers::chat::person::Person;
use protohackers::bytes::compare;
use protohackers::chat::room::{say, Room};

fn person(name: &str) -> Person {
    Person::new(name.to_string()).unwrap()
}

fn names(room: &Room) -> Vec<String> {
    room.people.iter().map(|p| p.name.clone()).collect()
}

#[test]
fn the_first_to_enter_finds_the_room_empty() {
    let mut room = Room::new();
    assert_eq!(
        ("* alice has entered the room\n".to_string(), "* The room contains: \n".to_string()),
        room.enter(person("alice"))
    );
    assert_eq!(vec!["alice"], names(&room));
}

#[test]
fn who_enters_is_told_who_is_there_in_the_order_of_names() {
    let mut room = Room::new();
    room.enter(person("carol"));
    assert_eq!(
        ("* alice has entered the room\n".to_string(), "* The room contains: carol\n".to_string()),
        room.enter(person("alice"))
    );
    assert_eq!(
        (
            "* bob has entered the room\n".to_string(),
            "* The room contains: alice, carol\n".to_string()
        ),
        room.enter(person("bob"))
    );
    assert_eq!(
        (
            "* Zed has entered the room\n".to_string(),
            "* The room contains: alice, bob, carol\n".to_string()
        ),
        room.enter(person("Zed"))
    );
    assert_eq!(vec!["Zed", "alice", "bob", "carol"], names(&room));
    assert_eq!("Zed, alice, bob, carol", room.names());
}

#[test]
fn nobody_is_in_the_room_twice() {
    let mut room = Room::new();
    room.enter(person("bob"));
    room.enter(person("alice"));
    assert_eq!(
        (
            "* bob has entered the room\n".to_string(),
            "* The room contains: alice, bob\n".to_string()
        ),
        room.enter(person("bob"))
    );
    assert_eq!(vec!["alice", "bob"], names(&room));
}

#[test]
fn who_leaves_is_gone() {
    let mut room = Room::new();
    room.enter(person("bob"));
    room.enter(person("alice"));
    room.enter(person("al"));
    assert_eq!("* alice has left the room\n", room.leave(&person("alice")));
    assert_eq!(vec!["al", "bob"], names(&room));
    assert_eq!("* carol has left the room\n", room.leave(&person("carol")));
    assert_eq!(vec!["al", "bob"], names(&room));
    assert_eq!("* al has left the room\n", room.leave(&person("al")));
    assert_eq!("* bob has left the room\n", room.leave(&person("bob")));
    assert_eq!(Vec::<String>::new(), names(&room));
    assert_eq!("", room.names());
}

#[test]
fn what_is_said_carries_the_name() {
    assert_eq!("[alice] hello\n", say(&person("alice"), "hello"));
    assert_eq!("[bob] \n", say(&person("bob"), ""));
}

#[test]
fn places_are_found_by_name() {
    let mut room = Room::new();
    room.enter(person("b"));
    room.enter(person("d"));
    assert_eq!((0, false), room.place("a"));
    assert_eq!((0, true), room.place("b"));
    assert_eq!((1, false), room.place("c"));
    assert_eq!((1, true), room.place("d"));
    assert_eq!((2, false), room.place("e"));
    assert_eq!((1, false), room.place("bb"));
}

#[test]
fn bytes_are_compared_as_in_a_dictionary() {
    assert_eq!((false, true), compare(b"", b""));
    assert_eq!((true, false), compare(b"", b"a"));
    assert_eq!((false, false), compare(b"a", b""));
    assert_eq!((true, false), compare(b"a", b"b"));
    assert_eq!((false, false), compare(b"b", b"a"));
    assert_eq!((true, false), compare(b"ab", b"abc"));
    assert_eq!((false, false), compare(b"abc", b"ab"));
    assert_eq!((false, true), compare(b"abc", b"abc"));
    assert_eq!((true, false), compare(b"Zed", b"alice"));
    assert_eq!((true, false), compare(b"abd", b"b"));
}
