use ollama_proxy::json::{Json, JsonNumber};
use ollama_proxy::openai::{ChatRequest, ToolCallChunk, ToolCallFunctionChunk};
use ollama_proxy::sse::{
    build_tool_call_sse, collect_sse_content, collect_sse_text, record_sse_chunk, request_has_recent_tool_result,
    tool_call_events,
};

fn s(text: &str) -> String {
    text.to_string()
}

fn call(name: &str, arguments: &str) -> ToolCallChunk {
    ToolCallChunk {
        id: s("call_ollama_proxy_1"),
        call_type: s("function"),
        function: ToolCallFunctionChunk { name: s(name), arguments: s(arguments) },
    }
}

fn message(role: &str) -> Json {
    Json::Object(vec![(s("role"), Json::Str(s(role))), (s("content"), Json::Str(s("x")))])
}

fn request_with_messages(messages: Vec<Json>) -> ChatRequest {
    ChatRequest {
        model: s("llama"),
        tools: Vec::new(),
        rest: Json::Object(vec![(s("messages"), Json::Array(messages))]),
    }
}

#[test]
fn collects_content_first_and_usage() {
    let block = [
        "data: {\"id\":\"c1\",\"created\":5,\"choices\":[{\"delta\":{\"content\":\"Hel\"}}]}\n",
        "\n",
        "event: ping\n",
        "data: {\"choices\":[{\"delta\":{\"content\":\"lo\"}}],\"usage\":{\"total_tokens\":3}}\r\n",
        "data: not json\n",
        "data: [DONE]\n",
    ]
    .concat();
    let mut content = String::new();
    let mut first = None;
    let mut usage = None;
    collect_sse_content(block.as_bytes(), &mut content, &mut first, &mut usage);
    assert_eq!(content, "Hello");
    let first = first.expect("first chunk");
    assert_eq!(first.get("id").and_then(|v| v.as_str()), Some("c1"));
    let usage = usage.expect("usage chunk");
    assert!(usage.get("usage").is_some());
}

#[test]
fn collect_keeps_earlier_first_chunk() {
    let mut content = s("a");
    let mut first = Some(Json::Str(s("earlier")));
    let mut usage = None;
    collect_sse_content(b"data: {\"choices\":[]}\n", &mut content, &mut first, &mut usage);
    assert_eq!(content, "a");
    assert_eq!(first, Some(Json::Str(s("earlier"))));
    assert!(usage.is_none());
}

#[test]
fn collect_ignores_lines_without_data_prefix() {
    let mut content = String::new();
    let mut first = None;
    let mut usage = None;
    collect_sse_content(
        b"data:{\"choices\":[{\"delta\":{\"content\":\"x\"}}]}\n",
        &mut content,
        &mut first,
        &mut usage,
    );
    assert_eq!(content, "");
    assert!(first.is_none());
}

#[test]
fn collect_reads_last_line_without_newline() {
    let mut content = String::new();
    let mut first = None;
    let mut usage = None;
    collect_sse_content(
        b"data: {\"choices\":[{\"delta\":{\"content\":\"x\"}}]}",
        &mut content,
        &mut first,
        &mut usage,
    );
    assert_eq!(content, "x");
}

#[test]
fn record_chunk_with_non_string_content() {
    let mut content = s("q");
    let mut first = None;
    let mut usage = None;
    let chunk = Json::Object(vec![(
        s("choices"),
        Json::Array(vec![Json::Object(vec![(
            s("delta"),
            Json::Object(vec![(s("content"), Json::Number(JsonNumber::PosInt(4)))]),
        )])]),
    )]);
    record_sse_chunk(&chunk, &mut content, &mut first, &mut usage);
    assert_eq!(content, "q");
    assert_eq!(first, Some(chunk));
    assert!(usage.is_none());
}

#[test]
fn recent_tool_result_found_in_last_messages() {
    let mut messages: Vec<Json> = (0..10).map(|_| message("user")).collect();
    messages[5] = message("tool");
    assert!(request_has_recent_tool_result(&request_with_messages(messages)));
}

#[test]
fn older_tool_result_is_not_recent() {
    let mut messages: Vec<Json> = (0..10).map(|_| message("user")).collect();
    messages[1] = message("tool");
    assert!(!request_has_recent_tool_result(&request_with_messages(messages)));
}

#[test]
fn no_messages_no_tool_result() {
    let request = ChatRequest { model: s("m"), tools: Vec::new(), rest: Json::Object(Vec::new()) };
    assert!(!request_has_recent_tool_result(&request));
    assert!(!request_has_recent_tool_result(&request_with_messages(Vec::new())));
    let not_array = ChatRequest {
        model: s("m"),
        tools: Vec::new(),
        rest: Json::Object(vec![(s("messages"), Json::Str(s("tool")))]),
    };
    assert!(!request_has_recent_tool_result(&not_array));
}

#[test]
fn builds_tool_call_events_exactly() {
    let first = Json::Object(vec![
        (s("id"), Json::Str(s("chatcmpl-1"))),
        (s("created"), Json::Number(JsonNumber::PosInt(1700))),
    ]);
    let out = build_tool_call_sse("llama", Some(first), None, call("read_file", "{\"path\":\"a\"}"));
    let expected = [
        "data: {\"choices\":[{\"delta\":{\"role\":\"assistant\",\"tool_calls\":[{\"function\":{\"arguments\":\"\",\"name\":\"read_file\"},\"id\":\"call_ollama_proxy_1\",\"index\":0,\"type\":\"function\"}]},\"finish_reason\":null,\"index\":0}],\"created\":1700,\"id\":\"chatcmpl-1\",\"model\":\"llama\",\"object\":\"chat.completion.chunk\"}\n\n",
        "data: {\"choices\":[{\"delta\":{\"tool_calls\":[{\"function\":{\"arguments\":\"{\\\"path\\\":\\\"a\\\"}\"},\"index\":0}]},\"finish_reason\":null,\"index\":0}],\"created\":1700,\"id\":\"chatcmpl-1\",\"model\":\"llama\",\"object\":\"chat.completion.chunk\"}\n\n",
        "data: {\"choices\":[{\"delta\":{},\"finish_reason\":\"tool_calls\",\"index\":0}],\"created\":1700,\"id\":\"chatcmpl-1\",\"model\":\"llama\",\"object\":\"chat.completion.chunk\"}\n\n",
        "data: [DONE]\n\n",
    ]
    .concat();
    assert_eq!(out, expected);
}

#[test]
fn builds_defaults_and_usage_event() {
    let usage = Json::Object(vec![(
        s("usage"),
        Json::Object(vec![(s("total_tokens"), Json::Number(JsonNumber::PosInt(9)))]),
    )]);
    let out = build_tool_call_sse("m", None, Some(usage), call("f", "{}"));
    assert!(out.contains("\"id\":\"chatcmpl-ollama-proxy\""));
    assert!(out.contains("\"created\":0"));
    assert!(out.ends_with("data: {\"usage\":{\"total_tokens\":9}}\n\ndata: [DONE]\n\n"));
    assert_eq!(out.matches("data: ").count(), 5);
}

#[test]
fn negative_created_is_kept() {
    let first = Json::Object(vec![(s("created"), Json::Number(JsonNumber::NegInt(-3)))]);
    let out = build_tool_call_sse("m", Some(first), None, call("f", "{}"));
    assert!(out.contains("\"created\":-3"));
}

#[test]
fn tool_call_events_are_three_documents_without_usage() {
    let documents = tool_call_events("m", &None, &None, call("f", "{}"));
    assert_eq!(documents.len(), 3);
    assert_eq!(documents[0].get("model").and_then(|v| v.as_str()), Some("m"));
    assert_eq!(documents[2].get("object").and_then(|v| v.as_str()), Some("chat.completion.chunk"));
}

#[test]
fn invalid_utf8_becomes_replacement_character() {
    let mut block = b"data: {\"choices\":[{\"delta\":{\"content\":\"a".to_vec();
    block.push(0xff);
    block.extend_from_slice(b"b\"}}]}\n");
    let mut content = String::new();
    let mut first = None;
    let mut usage = None;
    collect_sse_content(&block, &mut content, &mut first, &mut usage);
    assert_eq!(content, "a\u{FFFD}b");
}

#[test]
fn reading_in_two_blocks_is_reading_once() {
    let first_block = "data: {\"choices\":[{\"delta\":{\"content\":\"é\"}}]}\n";
    let second_block = "data: {\"choices\":[{\"delta\":{\"content\":\"!\"}}],\"usage\":{}}\n";
    let mut content_a = String::new();
    let mut first_a = None;
    let mut usage_a = None;
    collect_sse_content(first_block.as_bytes(), &mut content_a, &mut first_a, &mut usage_a);
    collect_sse_content(second_block.as_bytes(), &mut content_a, &mut first_a, &mut usage_a);
    let mut content_b = String::new();
    let mut first_b = None;
    let mut usage_b = None;
    let whole = format!("{}{}", first_block, second_block);
    collect_sse_content(whole.as_bytes(), &mut content_b, &mut first_b, &mut usage_b);
    assert_eq!(content_a, "é!");
    assert_eq!(content_a, content_b);
    assert_eq!(first_a, first_b);
    assert_eq!(usage_a, usage_b);
}

#[test]
fn collect_in_two_at_line_feed_with_invalid_bytes() {
    let a: Vec<u8> = [
        &b"data: {\"choices\":[{\"delta\":{\"content\":\"A\"}}]}\n"[..],
        &b"\xff\xfe junk\n"[..],
    ]
    .concat();
    let b: &[u8] = b"data: {\"choices\":[{\"delta\":{\"content\":\"B\"}}],\"usage\":{\"n\":1}}\n";
    let mut c1 = String::new();
    let mut f1 = None;
    let mut u1 = None;
    collect_sse_content(&a, &mut c1, &mut f1, &mut u1);
    collect_sse_content(b, &mut c1, &mut f1, &mut u1);
    let whole = [&a[..], b].concat();
    let mut c2 = String::new();
    let mut f2 = None;
    let mut u2 = None;
    collect_sse_content(&whole, &mut c2, &mut f2, &mut u2);
    assert_eq!(c1, "AB");
    assert_eq!(c1, c2);
    assert_eq!(f1, f2);
    assert_eq!(u1, u2);
    assert!(u1.is_some());
}

#[test]
fn collect_sse_text_reads_decoded_lines() {
    let text = "data: {\"choices\":[{\"delta\":{\"content\":\"x\u{e9}\"}}]}\r\ndata: [DONE]";
    let mut content = s("pre-");
    let mut first = None;
    let mut usage = None;
    collect_sse_text(text, &mut content, &mut first, &mut usage);
    assert_eq!(content, "pre-x\u{e9}");
    assert!(first.is_some());
    assert!(usage.is_none());
}

#[test]
fn json_text_round_trip() {
    let doc = Json::parse("{ \"b\": [1, -2, 1.5], \"a\": null }").expect("a document");
    assert_eq!(doc.get("b").and_then(|v| v.at(1)).and_then(|v| v.as_i64()), Some(-2));
    assert_eq!(doc.to_json_string(), "{\"a\":null,\"b\":[1,-2,1.5]}");
    assert!(Json::parse("{ nope").is_none());
}
