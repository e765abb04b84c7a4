//! The people of the chat room. A person is known by a name of one to
//! sixty-four letters and digits.

use vstd::prelude::*;

verus! {

/// The shape of a name.
pub const PERSON_NAME: &'static str = r"^[a-zA-Z0-9]{1,64}$";

/// Whether `regex::Regex::is_match` finds a pattern in a text, or nothing
/// where the pattern is no regular expression.
pub uninterp spec fn matched(pattern: Seq<char>, text: Seq<char>) -> Option<bool>;

/// Compiles `pattern` with `regex::Regex::new` and tests `text` with
/// `Regex::is_match`. The result is [`matched`] of the two: the same
/// pattern and text always give the same answer.
#[verifier::external_body]
pub(crate) fn is_match(pattern: &str, text: &str) -> (res: Option<bool>)
    ensures
        res == matched(pattern@, text@),
{
    let re = regex::Regex::new(pattern).ok()?;
    Some(re.is_match(text))
}

/// Someone in the chat room.
#[derive(Debug, PartialEq, Eq, Hash, Ord, PartialOrd, Clone)]
pub struct Person {
    pub name: String,
}

impl Person {
    /// The person of that name, given whether the name has the shape of a
    /// name: there is none unless it has.
    pub fn named(name: String, fits: Option<bool>) -> (res: Option<Person>)
        ensures
            match res {
                Some(person) => fits == Some(true) && person.name == name,
                None => fits != Some(true),
            },
    {
        match fits {
            Some(true) => Some(Person { name }),
            _ => None,
        }
    }

    /// The person of that name: there is one if and only if the name has
    /// the shape [`PERSON_NAME`].
    pub fn new(name: String) -> (res: Option<Person>)
        ensures
            match res {
                Some(person) => matched(PERSON_NAME@, name@) == Some(true) && person.name == name,
                None => matched(PERSON_NAME@, name@) != Some(true),
            },
    {
        let fits = is_match(PERSON_NAME, name.as_str());
        Person::named(name, fits)
    }
}

} // verus!
