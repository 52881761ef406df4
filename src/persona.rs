//! Who speaks a response: a job, a character, and the side of the
//! conversation the speaker is on.

use vstd::prelude::*;

verus! {

/// The trade of a speaker.
#[derive(Clone, Copy, Debug, PartialEq, Eq, Structural, Hash)]
pub enum Job {
    Farmer,
    Merchant,
    Priest,
}

/// Two small signed traits of a speaker, by convention in `-5..=5`.
#[derive(Clone, Copy, Debug, PartialEq, Eq, Structural, Hash)]
pub struct Character {
    pub hostile: i8,
    pub rebellious: i8,
}

/// A speaker: a job and a character.
#[derive(Clone, Copy, Debug, PartialEq, Eq, Structural, Hash)]
pub struct Person {
    pub job: Job,
    pub character: Character,
}

/// A speaker together with the side of the conversation it talks on. A
/// speaker whose description could not be read has no `person`.
#[derive(Clone, Copy, Debug, PartialEq, Eq, Structural, Hash)]
pub struct GeneralPerson {
    pub person: Option<Person>,
    pub youtalk: bool,
}

impl GeneralPerson {
    pub fn new(person: Option<Person>, youtalk: bool) -> (r: GeneralPerson)
        ensures
            r.person == person,
            r.youtalk == youtalk,
    {
        GeneralPerson { person, youtalk }
    }

    /// The same speaker on the other side of the conversation.
    pub open spec fn other_side_spec(self) -> GeneralPerson {
        GeneralPerson { person: self.person, youtalk: !self.youtalk }
    }

    /// The same speaker on the other side of the conversation.
    pub fn other_side(&self) -> (r: GeneralPerson)
        ensures
            r == self.other_side_spec(),
    {
        GeneralPerson { person: self.person, youtalk: !self.youtalk }
    }
}

} // verus!
