use vstd::prelude::*;
use crate::protocol::ids::{LemmaId, ParadigmId};
use crate::protocol::morphology::{Gender, PartOfSpeech};

verus! {

/// A dictionary headword. `text` is the citation form in full, nominative
/// suffix included.
#[derive(Debug, Clone)]
pub struct Lemma {
    pub id: LemmaId,
    pub text: String,
    pub gender: Gender,
    pub pos: PartOfSpeech,
}

/// A table of inflection rules: each ending pairs the bits of a flag set with
/// the suffix that realises it. Order matters only as a tie-break: the first
/// matching pair wins.
#[derive(Debug, Clone)]
pub struct Paradigm {
    pub id: ParadigmId,
    pub endings: Vec<(u32, String)>,
}

#[derive(Debug, Clone)]
pub struct Dictionary {
    pub version: u32,
    pub lemmas: Vec<Lemma>,
    pub paradigms: Vec<Paradigm>,
}

impl Dictionary {
    /// No two lemmas share an id.
    pub open spec fn has_unique_lemma_ids(&self) -> bool {
        forall|i: int, j: int|
            0 <= i < j < self.lemmas@.len() ==> (#[trigger] self.lemmas@[i]).id != (
            #[trigger] self.lemmas@[j]).id
    }

    /// No two paradigms share an id.
    pub open spec fn has_unique_paradigm_ids(&self) -> bool {
        forall|i: int, j: int|
            0 <= i < j < self.paradigms@.len() ==> (#[trigger] self.paradigms@[i]).id != (
            #[trigger] self.paradigms@[j]).id
    }

    /// The dictionary keeps its invariant: ids are unique among the lemmas
    /// and among the paradigms.
    pub open spec fn well_formed(&self) -> bool {
        self.has_unique_lemma_ids() && self.has_unique_paradigm_ids()
    }

    /// Whether ids are unique among the lemmas and among the paradigms.
    pub fn is_well_formed(&self) -> (r: bool)
        ensures
            r == self.well_formed(),
    {
        let mut j: usize = 0;
        while j < self.lemmas.len()
            invariant
                j <= self.lemmas@.len(),
                forall|a: int, b: int|
                    0 <= a < b < j ==> (#[trigger] self.lemmas@[a]).id != (
                    #[trigger] self.lemmas@[b]).id,
            decreases self.lemmas@.len() - j,
        {
            let mut i: usize = 0;
            while i < j
                invariant
                    i <= j < self.lemmas@.len(),
                    forall|a: int| 0 <= a < i ==> (#[trigger] self.lemmas@[a]).id != self.lemmas@[j as int].id,
                decreases j - i,
            {
                if self.lemmas[i].id.0 == self.lemmas[j].id.0 {
                    return false;
                }
                i = i + 1;
            }
            j = j + 1;
        }
        let mut j: usize = 0;
        while j < self.paradigms.len()
            invariant
                j <= self.paradigms@.len(),
                self.has_unique_lemma_ids(),
                forall|a: int, b: int|
                    0 <= a < b < j ==> (#[trigger] self.paradigms@[a]).id != (
                    #[trigger] self.paradigms@[b]).id,
            decreases self.paradigms@.len() - j,
        {
            let mut i: usize = 0;
            while i < j
                invariant
                    i <= j < self.paradigms@.len(),
                    forall|a: int|
                        0 <= a < i ==> (#[trigger] self.paradigms@[a]).id != self.paradigms@[j as int].id,
                decreases j - i,
            {
                if self.paradigms[i].id.0 == self.paradigms[j].id.0 {
                    return false;
                }
                i = i + 1;
            }
            j = j + 1;
        }
        true
    }
}

/// The label of an edge of the semantic network.
#[derive(Debug, Clone, Copy, PartialEq, Eq, Structural, Hash)]
pub enum Relation {
    /// Inheritance: an apple is a fruit.
    IsA,
    /// Constraint: eating requires something edible.
    RequiresAttribute,
    /// Property: fruit is edible.
    HasAttribute,
}

#[derive(Debug, Clone, Copy, PartialEq, Eq, Structural)]
pub struct SemanticEdge {
    pub from: LemmaId,
    pub to: LemmaId,
    pub relation: Relation,
}

/// The semantic network as persisted: a flat sequence of labelled edges.
#[derive(Debug, Clone)]
pub struct SemanticNetwork {
    pub version: u32,
    pub edges: Vec<SemanticEdge>,
}

} // verus!
