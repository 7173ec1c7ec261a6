# ollama_proxy

A proxy between an OpenAI-style chat client and an Ollama server. It forwards
chat completion requests, reads the server's event stream, and when the model
writes a tool call as plain JSON text (bare or in a ```json fence) instead of
using the tool-call protocol, it replaces the stream with a proper streamed
tool call. Every other stream passes through unchanged.

Layout:

- `src/` is the library, verified with Verus:
  - `text.rs`: characters, trimming, fence marks, line splitting;
  - `json.rs`: JSON documents and the calls into `serde_json` that parse and print them;
  - `openai.rs` (with `chat_request.rs`, `tool_spec.rs`, `function_spec.rs`): request and tool call types;
  - `normalizer.rs`: picking out the text of a tool call written as text, and
    turning its deserialised form into a tool call of the request;
  - `sse.rs`: reading the event stream and writing the events of a tool call;
  - `stream.rs`: events, actions and line gathering shared by the stream state machines;
  - `proxy.rs`: the stream state machine of the chat completion proxy, header forwarding, server addresses;
  - `raw_tool_call_scanner.rs`: a scanner that holds back only from the first possible tool call on;
  - `logging.rs`: names of log files.
- `app/` is the program: the HTTP server (axum), the HTTP client (reqwest),
  the async loop that feeds server events to the state machines and carries
  out their actions (among them deserialising a possible tool call into the
  serde-derived `RawToolCall` and handing the outcome back), file logging,
  and the serde types of the wire format.
- `tests/` runs the library on concrete inputs.
