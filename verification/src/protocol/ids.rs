use vstd::prelude::*;
use vstd::std_specs::convert::FromSpecImpl;

verus! {

/// Unique identifier for a lemma (dictionary headword).
#[derive(Debug, Clone, Copy, PartialEq, Eq, Structural, Hash, PartialOrd, Ord)]
pub struct LemmaId(pub u32);

impl LemmaId {
    pub fn new(id: u32) -> (r: Self)
        ensures
            r.0 == id,
    {
        LemmaId(id)
    }
}

impl From<u32> for LemmaId {
    fn from(id: u32) -> (r: Self) {
        LemmaId(id)
    }
}

impl FromSpecImpl<u32> for LemmaId {
    open spec fn obeys_from_spec() -> bool {
        true
    }

    open spec fn from_spec(id: u32) -> Self {
        LemmaId(id)
    }
}

impl From<LemmaId> for u32 {
    fn from(id: LemmaId) -> (r: u32) {
        id.0
    }
}

impl FromSpecImpl<LemmaId> for u32 {
    open spec fn obeys_from_spec() -> bool {
        true
    }

    open spec fn from_spec(id: LemmaId) -> u32 {
        id.0
    }
}

/// Unique identifier for an inflectional paradigm.
#[derive(Debug, Clone, Copy, PartialEq, Eq, Structural, Hash, PartialOrd, Ord)]
pub struct ParadigmId(pub u32);

impl ParadigmId {
    pub fn new(id: u32) -> (r: Self)
        ensures
            r.0 == id,
    {
        ParadigmId(id)
    }
}

impl From<u32> for ParadigmId {
    fn from(id: u32) -> (r: Self) {
        ParadigmId(id)
    }
}

impl FromSpecImpl<u32> for ParadigmId {
    open spec fn obeys_from_spec() -> bool {
        true
    }

    open spec fn from_spec(id: u32) -> Self {
        ParadigmId(id)
    }
}

impl From<ParadigmId> for u32 {
    fn from(id: ParadigmId) -> (r: u32) {
        id.0
    }
}

impl FromSpecImpl<ParadigmId> for u32 {
    open spec fn obeys_from_spec() -> bool {
        true
    }

    open spec fn from_spec(id: ParadigmId) -> u32 {
        id.0
    }
}

/// Unique identifier for a parsed token in a sentence.
#[derive(Debug, Clone, Copy, PartialEq, Eq, Structural, Hash, PartialOrd, Ord)]
pub struct TokenId(pub u32);

impl TokenId {
    pub fn new(id: u32) -> (r: Self)
        ensures
            r.0 == id,
    {
        TokenId(id)
    }
}

impl From<u32> for TokenId {
    fn from(id: u32) -> (r: Self) {
        TokenId(id)
    }
}

impl FromSpecImpl<u32> for TokenId {
    open spec fn obeys_from_spec() -> bool {
        true
    }

    open spec fn from_spec(id: u32) -> Self {
        TokenId(id)
    }
}

impl From<TokenId> for u32 {
    fn from(id: TokenId) -> (r: u32) {
        id.0
    }
}

impl FromSpecImpl<TokenId> for u32 {
    open spec fn obeys_from_spec() -> bool {
        true
    }

    open spec fn from_spec(id: TokenId) -> u32 {
        id.0
    }
}

/// Unique identifier for a processed sentence.
#[derive(Debug, Clone, Copy, PartialEq, Eq, Structural, Hash, PartialOrd, Ord)]
pub struct SentenceId(pub u32);

impl SentenceId {
    pub fn new(id: u32) -> (r: Self)
        ensures
            r.0 == id,
    {
        SentenceId(id)
    }
}

impl From<u32> for SentenceId {
    fn from(id: u32) -> (r: Self) {
        SentenceId(id)
    }
}

impl FromSpecImpl<u32> for SentenceId {
    open spec fn obeys_from_spec() -> bool {
        true
    }

    open spec fn from_spec(id: u32) -> Self {
        SentenceId(id)
    }
}

impl From<SentenceId> for u32 {
    fn from(id: SentenceId) -> (r: u32) {
        id.0
    }
}

impl FromSpecImpl<SentenceId> for u32 {
    open spec fn obeys_from_spec() -> bool {
        true
    }

    open spec fn from_spec(id: SentenceId) -> u32 {
        id.0
    }
}

} // verus!
