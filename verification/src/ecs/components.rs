use vstd::prelude::*;
use crate::protocol::ids::LemmaId;
use crate::protocol::morphology::MorphFlags;

verus! {

/// The entity handle of the store.
#[verifier::external_type_specification]
#[verifier::external_body]
pub struct ExEntity(hecs::Entity);

/// What a token is: its text and, where the dictionary knows it, its lemma.
#[derive(Debug, Clone)]
pub struct TokenData {
    pub text: String,
    pub lemma_id: Option<LemmaId>,
}

/// A [`TokenData`] with its text as a character sequence.
pub struct TokenDataView {
    pub text: Seq<char>,
    pub lemma_id: Option<LemmaId>,
}

impl View for TokenData {
    type V = TokenDataView;

    open spec fn view(&self) -> TokenDataView {
        TokenDataView { text: self.text@, lemma_id: self.lemma_id }
    }
}

/// The grammatical state of a token.
#[derive(Debug, Clone, Copy)]
pub struct Morphology {
    pub flags: MorphFlags,
}

impl Morphology {
    pub fn new(flags: MorphFlags) -> (r: Self)
        ensures
            r.flags == flags,
    {
        Morphology { flags }
    }
}

/// The syntactic role of a token under its head.
#[derive(Debug, Clone, Copy, PartialEq, Eq, Structural)]
pub enum DependencyRole {
    Root,
    Subject,
    Object,
    Modifier,
    PrepositionArg,
    IndirectObject,
    Coordinator,
    Conjunct,
    PassiveAgent,
    AbsoluteClause,
    Complement,
    RelativeClause,
}

/// The place of a token in the dependency tree: its head and its role.
#[derive(Debug, Clone, Copy)]
pub struct Syntax {
    pub head: hecs::Entity,
    pub role: DependencyRole,
}

} // verus!
