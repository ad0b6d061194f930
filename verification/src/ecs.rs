//! The dependency store of one sentence, and the agreement check that runs
//! over it.

pub mod agreement;
pub mod components;
pub mod world;

pub use agreement::{check_agreement, AgreementError};
pub use world::LogosWorld;
