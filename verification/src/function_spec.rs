//! The function behind an offered tool.
pub use crate::openai::FunctionSpec;
