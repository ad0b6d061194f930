//! Analysis of polytonic Greek sentences: tokens, morphology, a dependency
//! tree, and agreement and selectional-restriction checks.
//!
//! - [`protocol`]: identifiers, the morphological tagset, the dictionary and
//!   the semantic network.
//! - [`text`]: strings as sequences of characters, and byte offsets.
//! - [`morph`]: generation of an inflected form.
//! - [`parser`]: tokenizer, lexer, morphological resolver and dependency
//!   parser.
//! - [`ecs`]: the store of one sentence and the agreement check.
//! - [`solver`]: the semantic graph and the check of selectional
//!   restrictions.
//! - [`engine`]: the pipeline from text to report.

pub mod ecs;
pub mod engine;
pub mod morph;
pub mod parser;
pub mod protocol;
pub mod solver;
pub mod text;
