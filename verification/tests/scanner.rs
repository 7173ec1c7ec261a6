use ollama_proxy::json::Json;
use ollama_proxy::openai::{ChatRequest, FunctionSpec, ToolSpec};
use ollama_proxy::normalizer::RawToolCall;
use ollama_proxy::raw_tool_call_scanner::{scan_ollama_stream, ToolCallScanner};
use ollama_proxy::stream::{LogLabel, StreamAction, StreamEnd, StreamEvent};

fn s(text: &str) -> String {
    text.to_string()
}

fn request() -> ChatRequest {
    ChatRequest {
        model: s("llama"),
        tools: vec![ToolSpec {
            tool_type: s("function"),
            function: FunctionSpec { name: s("read_file"), parameters: Json::Null },
        }],
        rest: Json::Object(Vec::new()),
    }
}

fn chunk(content: &str) -> Vec<u8> {
    let escaped = content.replace('\\', "\\\\").replace('"', "\\\"").replace('\n', "\\n");
    format!("data: {{\"choices\":[{{\"delta\":{{\"content\":\"{}\"}}}}]}}\n\n", escaped).into_bytes()
}

fn sends(actions: &[StreamAction]) -> Vec<u8> {
    let mut out = Vec::new();
    for action in actions {
        if let StreamAction::Send(bytes) = action {
            out.extend_from_slice(bytes);
        }
    }
    out
}

/// Deserialises a text as a raw tool call, as the program does for a `Parse`
/// action; the texts in these tests repeat no member.
fn parse_call(text: &str) -> Option<RawToolCall> {
    let doc = Json::parse(text)?;
    match &doc {
        Json::Object(_) => Some(RawToolCall {
            name: doc.get("name")?.as_str()?.to_string(),
            arguments: doc.get("arguments")?.deep_clone(),
        }),
        Json::Array(items) if items.len() == 2 => Some(RawToolCall {
            name: items[0].as_str()?.to_string(),
            arguments: items[1].deep_clone(),
        }),
        _ => None,
    }
}

fn parse_texts(actions: &[StreamAction]) -> Vec<String> {
    actions
        .iter()
        .filter_map(|a| match a {
            StreamAction::Parse(t) => Some(t.clone()),
            _ => None,
        })
        .collect()
}

/// Steps the scanner and answers each `Parse` it asks for, as the program does.
fn drive(scanner: &mut ToolCallScanner, event: StreamEvent) -> Vec<StreamAction> {
    let mut out = Vec::new();
    let mut next = Some(event);
    while let Some(event) = next.take() {
        for action in scanner.step(event) {
            if let StreamAction::Parse(text) = &action {
                next = Some(StreamEvent::Parsed(parse_call(text)));
            }
            out.push(action);
        }
    }
    out
}

#[test]
fn scanner_releases_text_without_markers() {
    let mut scanner = scan_ollama_stream(request());
    let a = drive(&mut scanner, StreamEvent::Chunk(chunk("Hello")));
    assert_eq!(sends(&a), chunk("Hello"));
    let b = drive(&mut scanner, StreamEvent::Ended);
    assert!(sends(&b).is_empty());
    assert_eq!(scanner.end(), Some(StreamEnd::Completed));
}

#[test]
fn scanner_replaces_tool_call_after_text() {
    let mut scanner = scan_ollama_stream(request());
    let a = drive(&mut scanner, StreamEvent::Chunk(chunk("Let me look. ")));
    assert_eq!(sends(&a), chunk("Let me look. "));
    let b = drive(&mut scanner, StreamEvent::Chunk(chunk("{\"name\":\"read_file\",")));
    assert!(b.is_empty());
    let c = drive(&mut scanner, StreamEvent::Chunk(chunk("\"arguments\":{\"path\":\"a\"}}")));
    assert_eq!(scanner.end(), Some(StreamEnd::ToolCall));
    let out = String::from_utf8(sends(&c)).expect("utf-8");
    assert!(out.contains("\"name\":\"read_file\""));
    assert!(out.contains("\"arguments\":\"{\\\"path\\\":\\\"a\\\"}\""));
    assert!(out.ends_with("data: [DONE]\n\n"));
    let labels: Vec<LogLabel> = c
        .iter()
        .filter_map(|a| match a {
            StreamAction::Log(l, _) => Some(*l),
            _ => None,
        })
        .collect();
    assert_eq!(labels, vec![LogLabel::ProxyNormalizedToolCall, LogLabel::OllamaResponseStream]);
}

#[test]
fn scanner_waits_on_fence_start_then_releases() {
    let mut scanner = scan_ollama_stream(request());
    let a = drive(&mut scanner, StreamEvent::Chunk(chunk("``")));
    assert!(a.is_empty());
    let b = drive(&mut scanner, StreamEvent::Chunk(chunk("`rust")));
    let mut expected = chunk("``");
    expected.extend_from_slice(&chunk("`rust"));
    assert_eq!(sends(&b), expected);
}

#[test]
fn scanner_fenced_tool_call() {
    let mut scanner = scan_ollama_stream(request());
    let a = drive(&mut scanner, StreamEvent::Chunk(chunk("```json\n{\"name\":\"read_file\",\"arguments\":{}}\n```")));
    assert_eq!(scanner.end(), Some(StreamEnd::ToolCall));
    let out = String::from_utf8(sends(&a)).expect("utf-8");
    assert!(out.starts_with("data: {\"choices\""));
}

#[test]
fn scanner_timeout_sends_pending_and_done() {
    let mut scanner = scan_ollama_stream(request());
    let a = drive(&mut scanner, StreamEvent::Chunk(chunk("[1, 2")));
    assert!(a.is_empty());
    let b = drive(&mut scanner, StreamEvent::TimedOut);
    let mut expected = chunk("[1, 2");
    expected.extend_from_slice(b"data: [DONE]\n\n");
    assert_eq!(sends(&b), expected);
    assert_eq!(scanner.end(), Some(StreamEnd::TimedOut));
}

#[test]
fn scanner_closed_fence_releases() {
    let mut scanner = scan_ollama_stream(request());
    let text = "```json\n{\"name\":\"nope\",\"arguments\":{}}\n```";
    let a = drive(&mut scanner, StreamEvent::Chunk(chunk(text)));
    assert_eq!(sends(&a), chunk(text));
    assert_eq!(scanner.end(), None);
}

#[test]
fn scanner_holds_no_plain_text() {
    let mut scanner = scan_ollama_stream(request());
    let first = chunk("Plain words, ");
    let (head, tail) = first.split_at(10);
    let a = drive(&mut scanner, StreamEvent::Chunk(head.to_vec()));
    assert_eq!(sends(&a), head.to_vec());
    let b = drive(&mut scanner, StreamEvent::Chunk(tail.to_vec()));
    assert_eq!(sends(&b), tail.to_vec());
    let c = drive(&mut scanner, StreamEvent::Chunk(chunk("no markers here.")));
    assert_eq!(sends(&c), chunk("no markers here."));
    let d = drive(&mut scanner, StreamEvent::Ended);
    assert!(sends(&d).is_empty());
    assert_eq!(scanner.end(), Some(StreamEnd::Completed));
}

#[test]
fn scanner_repeated_member_is_no_tool_call() {
    let mut scanner = scan_ollama_stream(request());
    let a = scanner.step(StreamEvent::Chunk(chunk("Sure. ")));
    assert_eq!(sends(&a), chunk("Sure. "));
    let text = "{\"name\":\"read_file\",\"arguments\":{},\"arguments\":{}}";
    let b = scanner.step(StreamEvent::Chunk(chunk(text)));
    assert_eq!(parse_texts(&b), vec![text.to_string()]);
    assert!(sends(&b).is_empty());
    let c = scanner.step(StreamEvent::Parsed(None));
    assert_eq!(sends(&c), chunk(text));
    let d = scanner.step(StreamEvent::Ended);
    assert!(sends(&d).is_empty());
    assert_eq!(scanner.end(), Some(StreamEnd::Completed));
}
