//! The chat completion request.
pub use crate::openai::ChatRequest;
