//! A tool offered in a request.
pub use crate::openai::ToolSpec;
