//! The shapes of the OpenAI chat messages that the proxy reads and writes.
use vstd::prelude::*;

use crate::json::Json;

verus! {

/// A chat completion request: the model, the tools it offers, and every other
/// member of the request object in `rest`.
#[derive(Debug, Clone)]
pub struct ChatRequest {
    pub model: String,
    pub tools: Vec<ToolSpec>,
    pub rest: Json,
}

/// A tool offered to the model.
#[derive(Debug, Clone)]
pub struct ToolSpec {
    pub tool_type: String,
    pub function: FunctionSpec,
}

/// The function behind a tool.
#[derive(Debug, Clone)]
pub struct FunctionSpec {
    pub name: String,
    pub parameters: Json,
}

/// A tool call as it goes out in a streamed chunk.
#[derive(Debug)]
pub struct ToolCallChunk {
    pub id: String,
    pub call_type: String,
    pub function: ToolCallFunctionChunk,
}

/// The function part of a tool call: its name and its arguments as JSON text.
#[derive(Debug)]
pub struct ToolCallFunctionChunk {
    pub name: String,
    pub arguments: String,
}

} // verus!
