use ollama_proxy::logging::log_file_name;
use ollama_proxy::stream::LogLabel;
use ollama_proxy::text::{chars_of, is_white_space_char};

#[test]
fn white_space_matches_std_for_every_char() {
    for code in 0u32..=0x10FFFF {
        if let Some(c) = char::from_u32(code) {
            assert_eq!(is_white_space_char(c), c.is_whitespace(), "{:?}", c);
        }
    }
}

#[test]
fn chars_of_keeps_every_character() {
    let text = "aé€😀\n";
    assert_eq!(chars_of(text), text.chars().collect::<Vec<char>>());
}

#[test]
fn log_file_names() {
    assert_eq!(log_file_name(0, "x"), "0-x.json");
    assert_eq!(
        log_file_name(1700000000123, LogLabel::OllamaTimeout.as_str()),
        "1700000000123-ollama-timeout.json"
    );
    assert_eq!(log_file_name(u128::MAX, "a"), format!("{}-a.json", u128::MAX));
}

#[test]
fn labels_read_as_in_log_names() {
    assert_eq!(LogLabel::OllamaStreamError.as_str(), "ollama-stream-error");
    assert_eq!(LogLabel::OllamaResponseStream.as_str(), "ollama-response-stream");
    assert_eq!(LogLabel::ProxyNormalizedToolCall.as_str(), "proxy-normalized-tool-call");
}
