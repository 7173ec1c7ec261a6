use ollama_proxy::json::Json;
use ollama_proxy::normalizer::{
    raw_tool_call_text, strip_json_fence, try_normalize_raw_tool_call, RawToolCall,
};
use ollama_proxy::openai::{ChatRequest, FunctionSpec, ToolSpec};

fn tool(tool_type: &str, name: &str) -> ToolSpec {
    ToolSpec {
        tool_type: tool_type.to_string(),
        function: FunctionSpec { name: name.to_string(), parameters: Json::Null },
    }
}

fn request_with(tools: Vec<ToolSpec>) -> ChatRequest {
    ChatRequest { model: "llama".to_string(), tools, rest: Json::Object(Vec::new()) }
}

fn s(text: &str) -> String {
    text.to_string()
}

#[test]
fn strip_json_fence_takes_json_fence_apart() {
    assert_eq!(strip_json_fence("```json\n{\"a\":1}\n```"), Some("{\"a\":1}"));
}

#[test]
fn strip_json_fence_takes_bare_fence_apart() {
    assert_eq!(strip_json_fence("```\n {} \n```"), Some("{}"));
}

#[test]
fn strip_json_fence_keeps_unfenced_object() {
    assert_eq!(strip_json_fence("{x}"), Some("{x}"));
}

#[test]
fn strip_json_fence_refuses_plain_text() {
    assert_eq!(strip_json_fence("hello"), None);
    assert_eq!(strip_json_fence("{open"), None);
    assert_eq!(strip_json_fence(""), None);
    assert_eq!(strip_json_fence("{"), None);
}

#[test]
fn strip_json_fence_removes_repeated_fence_marks() {
    assert_eq!(strip_json_fence("```json```json {y} ``````"), Some("{y}"));
    assert_eq!(strip_json_fence("```json```"), Some(""));
    assert_eq!(strip_json_fence("```"), Some(""));
    assert_eq!(strip_json_fence("``` python ```"), Some("python"));
}

#[test]
fn strip_json_fence_needs_closing_fence() {
    assert_eq!(strip_json_fence("```json\n{\"a\":1}"), None);
}

fn raw(name: &str, arguments: &str) -> Option<RawToolCall> {
    Some(RawToolCall { name: s(name), arguments: Json::parse(arguments).expect("JSON arguments") })
}

#[test]
fn raw_tool_call_text_takes_the_call_out_of_its_fence() {
    let body = "{\"name\": \"read_file\", \"arguments\": {\"path\": \"a.txt\"}}";
    let fenced = format!("  ```json\n{}\n```\n", body);
    assert_eq!(raw_tool_call_text(&fenced), Some(body));
    assert_eq!(raw_tool_call_text(&format!(" \n{} \n", body)), Some(body));
    assert_eq!(raw_tool_call_text("```\n[\"ls\", {}]\n```"), Some("[\"ls\", {}]"));
}

#[test]
fn raw_tool_call_text_refuses_other_text() {
    assert_eq!(raw_tool_call_text("I will read the file."), None);
    assert_eq!(raw_tool_call_text("{\"name\": \"read_file\", \"arguments\": {"), None);
    assert_eq!(raw_tool_call_text("```json\n{\"a\":1}"), None);
    assert_eq!(raw_tool_call_text("   "), None);
}

#[test]
fn normalizes_tool_call() {
    let request = request_with(vec![tool("function", "read_file")]);
    let call = try_normalize_raw_tool_call(&raw("read_file", "{\"path\": \"a.txt\"}"), &request)
        .expect("a tool call");
    assert_eq!(call.id, "call_ollama_proxy_1");
    assert_eq!(call.call_type, "function");
    assert_eq!(call.function.name, "read_file");
    assert_eq!(call.function.arguments, "{\"path\":\"a.txt\"}");
}

#[test]
fn normalized_arguments_are_compact_json() {
    let request = request_with(vec![tool("function", "ls")]);
    let call = try_normalize_raw_tool_call(&raw("ls", "{\"b\": 2, \"a\": [1, true, null]}"), &request)
        .expect("a tool call");
    assert_eq!(call.function.name, "ls");
    assert_eq!(call.function.arguments, "{\"a\":[1,true,null],\"b\":2}");
}

#[test]
fn refuses_tool_not_offered() {
    let request = request_with(vec![tool("function", "read_file")]);
    assert!(try_normalize_raw_tool_call(&raw("write_file", "{}"), &request).is_none());
}

#[test]
fn refuses_tool_of_other_type() {
    let request = request_with(vec![tool("retrieval", "read_file")]);
    assert!(try_normalize_raw_tool_call(&raw("read_file", "{}"), &request).is_none());
}

#[test]
fn refuses_arguments_that_are_not_an_object() {
    let request = request_with(vec![tool("function", "read_file")]);
    assert!(try_normalize_raw_tool_call(&raw("read_file", "\"a.txt\""), &request).is_none());
    assert!(try_normalize_raw_tool_call(&raw("read_file", "[1]"), &request).is_none());
}

#[test]
fn refuses_what_deserialising_refused() {
    let request = request_with(vec![tool("function", "read")]);
    assert!(try_normalize_raw_tool_call(&None, &request).is_none());
}

#[test]
fn fenced_and_bare_tool_calls_read_the_same() {
    let body = "{\"name\":\"read_file\",\"arguments\":{\"path\":\"b\"}}";
    let json_fenced = format!("```json\n{}\n```", body);
    let plain_fenced = format!("```\n{}\n```", body);
    assert_eq!(raw_tool_call_text(body), Some(body));
    assert_eq!(raw_tool_call_text(&json_fenced), Some(body));
    assert_eq!(raw_tool_call_text(&plain_fenced), Some(body));
}

#[test]
fn unfencing_undoes_fencing() {
    for text in ["plain words", "", "a\nb", "```"] {
        assert_eq!(strip_json_fence(&format!("```json\n{}\n```", text)), Some(text));
        assert_eq!(strip_json_fence(&format!("```\n{}\n```", text)), Some(text));
    }
}
