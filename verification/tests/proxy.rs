use ollama_proxy::json::Json;
use ollama_proxy::openai::{ChatRequest, FunctionSpec, ToolSpec};
use ollama_proxy::proxy::{chat_completions_url, filter_headers, models_url, ProxyStream};
use ollama_proxy::sse::build_tool_call_sse;
use ollama_proxy::normalizer::{try_normalize_raw_tool_call, RawToolCall};
use ollama_proxy::stream::{LogLabel, StreamAction, StreamEnd, StreamEvent};

fn s(text: &str) -> String {
    text.to_string()
}

fn request() -> ChatRequest {
    ChatRequest {
        model: s("llama"),
        tools: vec![ToolSpec {
            tool_type: s("function"),
            function: FunctionSpec { name: s("read_file"), parameters: Json::Null },
        }],
        rest: Json::Object(Vec::new()),
    }
}

fn chunk(content: &str) -> Vec<u8> {
    let escaped = content.replace('\\', "\\\\").replace('"', "\\\"").replace('\n', "\\n");
    format!("data: {{\"id\":\"c1\",\"created\":7,\"choices\":[{{\"delta\":{{\"content\":\"{}\"}}}}]}}\n\n", escaped)
        .into_bytes()
}

fn sends(actions: &[StreamAction]) -> Vec<u8> {
    let mut out = Vec::new();
    for action in actions {
        if let StreamAction::Send(bytes) = action {
            out.extend_from_slice(bytes);
        }
    }
    out
}

fn logs(actions: &[StreamAction]) -> Vec<LogLabel> {
    actions
        .iter()
        .filter_map(|a| match a {
            StreamAction::Log(label, _) => Some(*label),
            _ => None,
        })
        .collect()
}

/// Deserialises a text as a raw tool call, as the program does for a `Parse`
/// action; the texts in these tests repeat no member.
fn parse_call(text: &str) -> Option<RawToolCall> {
    let doc = Json::parse(text)?;
    match &doc {
        Json::Object(_) => Some(RawToolCall {
            name: doc.get("name")?.as_str()?.to_string(),
            arguments: doc.get("arguments")?.deep_clone(),
        }),
        Json::Array(items) if items.len() == 2 => Some(RawToolCall {
            name: items[0].as_str()?.to_string(),
            arguments: items[1].deep_clone(),
        }),
        _ => None,
    }
}

fn parse_texts(actions: &[StreamAction]) -> Vec<String> {
    actions
        .iter()
        .filter_map(|a| match a {
            StreamAction::Parse(t) => Some(t.clone()),
            _ => None,
        })
        .collect()
}

/// Steps the proxy and answers each `Parse` it asks for, as the program does.
fn drive(stream: &mut ProxyStream, event: StreamEvent, req: &ChatRequest) -> Vec<StreamAction> {
    let mut out = Vec::new();
    let mut next = Some(event);
    while let Some(event) = next.take() {
        for action in stream.step(event, req) {
            if let StreamAction::Parse(text) = &action {
                next = Some(StreamEvent::Parsed(parse_call(text)));
            }
            out.push(action);
        }
    }
    out
}

#[test]
fn plain_text_passes_through() {
    let req = request();
    let mut stream = ProxyStream::new();
    let a = drive(&mut stream, StreamEvent::Chunk(chunk("Hi there")), &req);
    assert_eq!(sends(&a), chunk("Hi there"));
    let b = drive(&mut stream, StreamEvent::Chunk(chunk(" friend")), &req);
    assert_eq!(sends(&b), chunk(" friend"));
    let c = drive(&mut stream, StreamEvent::Ended, &req);
    assert_eq!(sends(&c), Vec::<u8>::new());
    assert_eq!(logs(&c), vec![LogLabel::OllamaResponseStream]);
    assert_eq!(stream.end(), Some(StreamEnd::Completed));
}

#[test]
fn json_tool_call_is_replaced() {
    let req = request();
    let mut stream = ProxyStream::new();
    let a = drive(&mut stream, StreamEvent::Chunk(chunk("{\"name\":\"read_file\",")), &req);
    assert!(a.is_empty());
    let b = drive(&mut stream, StreamEvent::Chunk(chunk("\"arguments\":{\"path\":\"a\"}}")), &req);
    assert_eq!(stream.end(), Some(StreamEnd::ToolCall));
    let content = "{\"name\":\"read_file\",\"arguments\":{\"path\":\"a\"}}";
    let call = try_normalize_raw_tool_call(&parse_call(content), &req).expect("tool call");
    let first = Json::Object(vec![
        (s("choices"), Json::Array(vec![Json::Object(vec![(
            s("delta"),
            Json::Object(vec![(s("content"), Json::Str(s("{\"name\":\"read_file\",")))]),
        )])])),
        (s("created"), Json::Number(ollama_proxy::json::JsonNumber::PosInt(7))),
        (s("id"), Json::Str(s("c1"))),
    ]);
    let expected = build_tool_call_sse("llama", Some(first), None, call);
    assert_eq!(sends(&b), expected.into_bytes());
    assert_eq!(logs(&b), vec![LogLabel::ProxyNormalizedToolCall, LogLabel::OllamaResponseStream]);
    let after = drive(&mut stream, StreamEvent::Ended, &req);
    assert!(after.is_empty());
}

#[test]
fn timeout_releases_held_bytes_and_done() {
    let req = request();
    let mut stream = ProxyStream::new();
    let a = drive(&mut stream, StreamEvent::Chunk(chunk("{\"name\"")), &req);
    assert!(a.is_empty());
    let b = drive(&mut stream, StreamEvent::TimedOut, &req);
    let mut expected = chunk("{\"name\"");
    expected.extend_from_slice(b"data: [DONE]\n\n");
    assert_eq!(sends(&b), expected);
    assert_eq!(logs(&b), vec![LogLabel::OllamaTimeout]);
    assert_eq!(stream.end(), Some(StreamEnd::TimedOut));
}

#[test]
fn stream_error_after_passthrough_sends_done_only() {
    let req = request();
    let mut stream = ProxyStream::new();
    drive(&mut stream, StreamEvent::Chunk(chunk("Hello")), &req);
    let b = drive(&mut stream, StreamEvent::Failed, &req);
    assert_eq!(sends(&b), b"data: [DONE]\n\n".to_vec());
    assert_eq!(logs(&b), vec![LogLabel::OllamaStreamError]);
}

#[test]
fn split_line_waits_for_its_end() {
    let req = request();
    let mut stream = ProxyStream::new();
    let whole = chunk("Hi");
    let (left, right) = whole.split_at(30);
    let a = drive(&mut stream, StreamEvent::Chunk(left.to_vec()), &req);
    assert!(a.is_empty());
    let b = drive(&mut stream, StreamEvent::Chunk(right.to_vec()), &req);
    assert_eq!(sends(&b), whole);
}

#[test]
fn backquote_waits_and_other_fence_passes() {
    let req = request();
    let mut stream = ProxyStream::new();
    let a = drive(&mut stream, StreamEvent::Chunk(chunk("`")), &req);
    assert!(a.is_empty());
    let b = drive(&mut stream, StreamEvent::Chunk(chunk("``py")), &req);
    let mut expected = chunk("`");
    expected.extend_from_slice(&chunk("``py"));
    assert_eq!(sends(&b), expected);
}

#[test]
fn closed_fence_without_tool_call_passes() {
    let req = request();
    let mut stream = ProxyStream::new();
    let a = drive(&mut stream, StreamEvent::Chunk(chunk("```json\n{\"name\":\"other\",\"arguments\":{}}\n```")), &req);
    assert_eq!(sends(&a), chunk("```json\n{\"name\":\"other\",\"arguments\":{}}\n```"));
    assert_eq!(stream.end(), None);
}

#[test]
fn long_candidate_passes() {
    let req = request();
    let mut stream = ProxyStream::new();
    let a = drive(&mut stream, StreamEvent::Chunk(chunk("{\"name\":")), &req);
    assert!(a.is_empty());
    let long = "x".repeat(4100);
    let b = drive(&mut stream, StreamEvent::Chunk(chunk(&long)), &req);
    let mut expected = chunk("{\"name\":");
    expected.extend_from_slice(&chunk(&long));
    assert_eq!(sends(&b), expected);
}

#[test]
fn filters_connection_headers() {
    let headers = vec![
        (s("Host"), b"localhost".to_vec()),
        (s("Content-Type"), b"application/json".to_vec()),
        (s("X-A"), b"1".to_vec()),
        (s("CONNECTION"), b"keep-alive".to_vec()),
        (s("x-a"), b"2".to_vec()),
        (s("accept-encoding"), b"gzip".to_vec()),
        (s("content-length"), b"12".to_vec()),
        (s("bad name"), b"v".to_vec()),
        (s("ok"), vec![1u8]),
        (s("tab"), b"a\tb".to_vec()),
    ];
    let forwarded = filter_headers(&headers);
    assert_eq!(
        forwarded,
        vec![
            (s("content-type"), b"application/json".to_vec()),
            (s("x-a"), b"2".to_vec()),
            (s("tab"), b"a\tb".to_vec()),
        ]
    );
}

#[test]
fn builds_upstream_urls() {
    assert_eq!(models_url("http://127.0.0.1:11434"), "http://127.0.0.1:11434/v1/models");
    assert_eq!(
        chat_completions_url("http://127.0.0.1:11434"),
        "http://127.0.0.1:11434/v1/chat/completions"
    );
}

#[test]
fn passthrough_is_final() {
    let req = request();
    let mut stream = ProxyStream::new();
    let a = drive(&mut stream, StreamEvent::Chunk(chunk("Sure, ")), &req);
    assert_eq!(sends(&a), chunk("Sure, "));
    let call = chunk("{\"name\":\"read_file\",\"arguments\":{}}");
    let b = drive(&mut stream, StreamEvent::Chunk(call.clone()), &req);
    assert_eq!(b.len(), 1);
    assert_eq!(sends(&b), call);
    let partial = b"data: {\"choi".to_vec();
    let c = drive(&mut stream, StreamEvent::Chunk(partial.clone()), &req);
    assert_eq!(sends(&c), partial);
    let d = drive(&mut stream, StreamEvent::TimedOut, &req);
    assert_eq!(sends(&d), b"data: [DONE]\n\n".to_vec());
    assert_eq!(logs(&d), vec![LogLabel::OllamaTimeout]);
    assert_eq!(stream.end(), Some(StreamEnd::TimedOut));
}

#[test]
fn proxy_asks_to_parse_the_candidate() {
    let req = request();
    let mut stream = ProxyStream::new();
    let text = "{\"name\":\"read_file\",\"arguments\":{}}";
    let a = stream.step(StreamEvent::Chunk(chunk(text)), &req);
    assert_eq!(parse_texts(&a), vec![s(text)]);
    assert!(sends(&a).is_empty());
    assert_eq!(stream.end(), None);
}

#[test]
fn proxy_repeated_member_is_no_tool_call() {
    let req = request();
    let mut stream = ProxyStream::new();
    let text = "{\"name\":\"read_file\",\"name\":\"read_file\",\"arguments\":{}}";
    let a = stream.step(StreamEvent::Chunk(chunk(text)), &req);
    assert_eq!(parse_texts(&a), vec![s(text)]);
    let b = stream.step(StreamEvent::Parsed(None), &req);
    assert_eq!(sends(&b), chunk(text));
    assert_eq!(stream.end(), None);
    let c = stream.step(StreamEvent::Ended, &req);
    assert!(sends(&c).is_empty());
    assert_eq!(stream.end(), Some(StreamEnd::Completed));
}

#[test]
fn proxy_ignores_unasked_answer() {
    let req = request();
    let mut stream = ProxyStream::new();
    let answer = parse_call("{\"name\":\"read_file\",\"arguments\":{}}");
    let a = stream.step(StreamEvent::Parsed(answer), &req);
    assert!(a.is_empty());
    assert_eq!(stream.end(), None);
}
