//! The decisions of a streaming proxy between an OpenAI-style client and an
//! Ollama server: it reads the server's event stream, recognises a tool call
//! that the model wrote as plain JSON text, and re-emits it as a proper
//! streamed tool call; everything else passes through unchanged.
pub mod chat_request;
pub mod function_spec;
pub mod json;
pub mod logging;
pub mod normalizer;
pub mod openai;
pub mod proxy;
pub mod raw_tool_call_scanner;
pub mod sse;
pub mod stream;
pub mod text;
pub mod tool_spec;
