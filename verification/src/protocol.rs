//! The shared data model: identifiers, the morphological tagset and the
//! dictionary and semantic-network records.

pub mod ids;
pub mod model;
pub mod morphology;

pub use ids::{LemmaId, ParadigmId, SentenceId, TokenId};
pub use model::{Dictionary, Lemma, Paradigm, Relation, SemanticEdge, SemanticNetwork};
pub use morphology::{Case, Gender, Mood, MorphFlags, Number, PartOfSpeech, Person, Tense, Voice};
