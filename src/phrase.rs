//! A node of the conversation graph.

use vstd::prelude::*;
use crate::cloud::string_views;
use crate::persona::GeneralPerson;

verus! {

/// A phrase as a value: its texts and its outgoing responses.
pub struct PhraseView {
    pub texts: Seq<Seq<char>>,
    pub responses: Seq<(usize, GeneralPerson)>,
}

/// A node: the texts that share one cloud, the first being the canonical one,
/// and the responses that lead on from it, each to a phrase index and with the
/// speaker who said it. Both lists only grow.
#[derive(Clone, Debug)]
pub struct Phrase {
    pub texts: Vec<String>,
    pub responses: Vec<(usize, GeneralPerson)>,
}

impl View for Phrase {
    type V = PhraseView;

    open spec fn view(&self) -> PhraseView {
        PhraseView { texts: string_views(self.texts@), responses: self.responses@ }
    }
}

impl Phrase {
    /// A phrase with no text and no response.
    pub fn new() -> (r: Phrase)
        ensures
            r@.texts.len() == 0,
            r@.responses.len() == 0,
    {
        Phrase { texts: Vec::new(), responses: Vec::new() }
    }
}

} // verus!
