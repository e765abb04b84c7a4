use protohackers::chat::person::Person;

#[test]
fn person_with_a_plain_name() {
    assert_eq!(Some(Person { name: "alice".to_string() }), Person::new("alice".to_string()));
    assert_eq!(Some(Person { name: "Bob42".to_string() }), Person::new("Bob42".to_string()));
    assert_eq!(Some(Person { name: "7".to_string() }), Person::new("7".to_string()));
}

#[test]
fn person_needs_one_to_sixty_four_letters_or_digits() {
    assert_eq!(None, Person::new("".to_string()));
    assert_eq!(None, Person::new("al ice".to_string()));
    assert_eq!(None, Person::new("alice\n".to_string()));
    assert_eq!(None, Person::new("al_ice".to_string()));
    assert_eq!(None, Person::new("\u{e9}ric".to_string()));
    let longest = "a".repeat(64);
    assert_eq!(Some(Person { name: longest.clone() }), Person::new(longest));
    assert_eq!(None, Person::new("a".repeat(65)));
}

#[test]
fn person_named_goes_by_the_verdict() {
    assert_eq!(
        Some(Person { name: "no good".to_string() }),
        Person::named("no good".to_string(), Some(true))
    );
    assert_eq!(None, Person::named("alice".to_string(), Some(false)));
    assert_eq!(None, Person::named("alice".to_string(), None));
}
