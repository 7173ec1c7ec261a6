//! Reading the server's event stream and writing the events of a tool call.
use vstd::prelude::*;

use crate::json::{
    i64_number, index_at, index_key, json_parse, json_text, opt_json_view, parse_json,
    to_json_text, value_as_i64, value_as_str, value_get, Json, JsonNumber, JsonValue,
    NumberValue,
};
use crate::openai::{ChatRequest, ToolCallChunk};
use crate::text::{chars_of, find_newline, lines, newline_index, starts_with_at, string_from_chars};
use vstd::utf8::{decode_utf8, valid_utf8};

verus! {

/// Beyond this many bytes of model text with no tool call recognised, the
/// proxy stops waiting for one and passes the stream through.
pub const RAW_TOOL_CALL_PASSTHROUGH_THRESHOLD: usize = 4096;

/// Seconds without a byte from the server after which the stream counts as dead.
pub const INACTIVITY_TIMEOUT_SECS: u64 = 90;

/// How many of the last messages of a request are looked at for a tool result.
pub const TOOL_RESULT_LOOKBACK: usize = 8;

const DATA_PREFIX: [char; 6] = ['d', 'a', 't', 'a', ':', ' '];

const DONE_MARKER: [char; 6] = ['[', 'D', 'O', 'N', 'E', ']'];

/// "data: ".
pub open spec fn data_prefix() -> Seq<char> {
    seq!['d', 'a', 't', 'a', ':', ' ']
}

/// "[DONE]".
pub open spec fn done_marker() -> Seq<char> {
    seq!['[', 'D', 'O', 'N', 'E', ']']
}

/// What `String::from_utf8_lossy` makes of bytes that are not valid UTF-8:
/// the text they encode, with each invalid sequence replaced by U+FFFD.
pub uninterp spec fn lossy_decoding(bytes: Seq<u8>) -> Seq<char>;

/// What `String::from_utf8_lossy` makes of bytes: the decoded text where the
/// bytes are valid UTF-8, the lossy decoding otherwise.
pub open spec fn utf8_lossy(bytes: Seq<u8>) -> Seq<char> {
    if valid_utf8(bytes) {
        decode_utf8(bytes)
    } else {
        lossy_decoding(bytes)
    }
}

/// `String::from_utf8_lossy`. Trusted: for valid UTF-8 the text is the decoded
/// bytes, as the documentation says; for other bytes it is the one that
/// `lossy_decoding` names. Only invalid sequences are replaced, and a line feed
/// byte is never part of one (it is a whole character in UTF-8), so the text
/// of bytes cut right after a line feed is the text of the part up to and
/// including it, which ends with `'\n'`, followed by the text of the rest.
#[verifier::external_body]
fn decode_utf8_lossy(bytes: &[u8]) -> (s: String)
    ensures
        s@ == (if valid_utf8(bytes@) {
            decode_utf8(bytes@)
        } else {
            lossy_decoding(bytes@)
        }),
        forall|k: int|
            0 < k <= bytes@.len() && bytes@[k - 1] == 10u8 ==> s@ == utf8_lossy(
                #[trigger] bytes@.take(k),
            ) + utf8_lossy(bytes@.skip(k)),
        forall|k: int|
            0 < k <= bytes@.len() && bytes@[k - 1] == 10u8 ==> 0 < utf8_lossy(
                #[trigger] bytes@.take(k),
            ).len() <= s@.len() && s@[utf8_lossy(bytes@.take(k)).len() - 1] == '\n',
{
    String::from_utf8_lossy(bytes).into_owned()
}

/// The valid UTF-8 bytes `p + q` decode to the text of `p` then that of `q`.
proof fn lemma_decode_concat(p: Seq<u8>, q: Seq<u8>)
    requires
        valid_utf8(p),
        valid_utf8(q),
    ensures
        valid_utf8(p + q),
        decode_utf8(p + q) == decode_utf8(p) + decode_utf8(q),
    decreases p.len(),
{
    if p.len() == 0 {
        assert(p + q =~= q);
        assert(decode_utf8(p) + decode_utf8(q) =~= decode_utf8(q));
    } else {
        let x = p + q;
        let n = vstd::utf8::length_of_first_scalar(p);
        assert(vstd::utf8::valid_first_scalar(p));
        assert(n <= p.len());
        assert(x[0] == p[0]);
        assert(p.len() >= 2 ==> x[1] == p[1]);
        assert(p.len() >= 3 ==> x[2] == p[2]);
        assert(p.len() >= 4 ==> x[3] == p[3]);
        assert(vstd::utf8::valid_first_scalar(x));
        assert(vstd::utf8::length_of_first_scalar(x) == n);
        assert(vstd::utf8::decode_first_scalar(x) == vstd::utf8::decode_first_scalar(p));
        let rest = vstd::utf8::pop_first_scalar(p);
        assert(vstd::utf8::pop_first_scalar(x) =~= rest + q);
        lemma_decode_concat(rest, q);
        assert(decode_utf8(x) =~= decode_utf8(p) + decode_utf8(q));
    }
}

/// Valid UTF-8 splits into valid UTF-8 right after a line feed.
proof fn lemma_split_after_newline(x: Seq<u8>, k: int)
    requires
        valid_utf8(x),
        0 <= k < x.len(),
        x[k] == 10u8,
    ensures
        valid_utf8(x.take(k + 1)),
        valid_utf8(x.skip(k + 1)),
        decode_utf8(x.take(k + 1)).len() > 0,
        decode_utf8(x.take(k + 1)).last() == '\n',
{
    vstd::utf8::is_char_boundary_iff_not_is_continuation_byte(x, k);
    vstd::utf8::valid_utf8_split(x, k);
    let head = x.subrange(0, k);
    let tail = x.subrange(k, x.len() as int);
    assert(tail[0] == 10u8);
    assert(vstd::utf8::pop_first_scalar(tail) =~= x.skip(k + 1));
    let nl: Seq<u8> = seq![10u8];
    assert(vstd::utf8::pop_first_scalar(nl) =~= Seq::<u8>::empty());
    assert(valid_utf8(Seq::<u8>::empty()));
    assert(valid_utf8(nl));
    lemma_decode_concat(head, nl);
    assert(head + nl =~= x.take(k + 1));
    assert((10u8 & 0x7Fu8) == 10u8) by (bit_vector);
    assert(vstd::utf8::decode_first_scalar(nl) == 10u32);
    assert(decode_utf8(nl) == seq![(10u32) as char] + decode_utf8(Seq::<u8>::empty()));
    vstd::utf8::char_u32_cast('\n', 10u32);
    assert(decode_utf8(nl) =~= seq!['\n']);
}

/// What the proxy has gathered from the event stream so far: the model's text,
/// the first chunk, and the last chunk that reported usage.
pub struct SseCapture {
    pub content: Seq<char>,
    pub first: Option<JsonValue>,
    pub usage: Option<JsonValue>,
}

/// The text that a chunk adds: `choices[0].delta.content` where it is a string.
pub open spec fn delta_content(v: JsonValue) -> Seq<char> {
    match value_as_str(
        index_key(index_key(index_at(index_key(v, "choices"@), 0), "delta"@), "content"@),
    ) {
        Some(s) => s,
        None => seq![],
    }
}

/// One chunk of the stream recorded: its text added, kept as the first chunk
/// if there was none, kept as the usage chunk if it has `usage`.
pub open spec fn sse_chunk(st: SseCapture, v: JsonValue) -> SseCapture {
    SseCapture {
        content: st.content + delta_content(v),
        first: if st.first is None {
            Some(v)
        } else {
            st.first
        },
        usage: if value_get(v, "usage"@) is Some {
            Some(v)
        } else {
            st.usage
        },
    }
}

/// Law of a chunk's text: where `choices` is an array whose first element has
/// a `delta` whose `content` is the string `text`, the gathered text becomes
/// the old text followed by exactly `text`.
pub proof fn lemma_delta_text_appended(
    st: SseCapture,
    v: JsonValue,
    items: Seq<JsonValue>,
    delta: JsonValue,
    text: Seq<char>,
)
    requires
        value_get(v, "choices"@) == Some(JsonValue::Array(items)),
        items.len() > 0,
        value_get(items[0], "delta"@) == Some(delta),
        value_get(delta, "content"@) == Some(JsonValue::Str(text)),
    ensures
        sse_chunk(st, v).content == st.content + text,
{
}

/// Law of a chunk's text: a chunk without `choices`, or whose first choice has
/// no string `delta.content`, adds nothing to the gathered text.
pub proof fn lemma_no_delta_text_no_change(st: SseCapture, v: JsonValue)
    requires
        value_get(v, "choices"@) is None || !(value_get(
            index_key(index_at(index_key(v, "choices"@), 0), "delta"@),
            "content"@,
        ) matches Some(JsonValue::Str(_))),
    ensures
        sse_chunk(st, v).content == st.content,
{
    assert(st.content + seq![] =~= st.content);
}

/// One line of the event stream: a `data: ` line that holds a JSON chunk
/// (not `[DONE]`) is recorded; every other line changes nothing.
pub open spec fn sse_line(st: SseCapture, line: Seq<char>) -> SseCapture {
    if data_prefix().is_prefix_of(line) {
        let data = line.skip(6);
        if data == done_marker() {
            st
        } else {
            match json_parse(data) {
                None => st,
                Some(v) => sse_chunk(st, v),
            }
        }
    } else {
        st
    }
}

/// The lines taken in order.
pub open spec fn sse_lines(st: SseCapture, ls: Seq<Seq<char>>) -> SseCapture
    decreases ls.len(),
{
    if ls.len() == 0 {
        st
    } else {
        sse_lines(sse_line(st, ls[0]), ls.drop_first())
    }
}

/// Lines only ever add to the gathered text.
pub proof fn lemma_sse_lines_extends(st: SseCapture, ls: Seq<Seq<char>>)
    ensures
        st.content.is_prefix_of(sse_lines(st, ls).content),
    decreases ls.len(),
{
    if ls.len() > 0 {
        let next = sse_line(st, ls[0]);
        lemma_sse_lines_extends(next, ls.drop_first());
        assert(st.content.is_prefix_of(next.content)) by {
            if next.content != st.content {
                assert(next.content.subrange(0, st.content.len() as int) =~= st.content);
            }
        }
    }
}

/// Lines taken in two runs are the lines taken in one.
proof fn lemma_sse_lines_append(st: SseCapture, l1: Seq<Seq<char>>, l2: Seq<Seq<char>>)
    ensures
        sse_lines(st, l1 + l2) == sse_lines(sse_lines(st, l1), l2),
    decreases l1.len(),
{
    if l1.len() == 0 {
        assert(l1 + l2 =~= l2);
    } else {
        assert((l1 + l2)[0] == l1[0]);
        assert((l1 + l2).drop_first() =~= l1.drop_first() + l2);
        lemma_sse_lines_append(sse_line(st, l1[0]), l1.drop_first(), l2);
    }
}

/// Law of the event stream reading: two blocks of whole lines, read one after
/// the other, gather what their concatenation gathers, where the concatenation
/// is valid UTF-8.
pub proof fn lemma_collect_in_two(st: SseCapture, p: Seq<u8>, q: Seq<u8>)
    requires
        p.len() == 0 || p.last() == 10u8,
        valid_utf8(p + q),
    ensures
        sse_collect(sse_collect(st, p), q) == sse_collect(st, p + q),
{
    if p.len() == 0 {
        assert(p + q =~= q);
        assert(valid_utf8(p));
        assert(decode_utf8(p) =~= Seq::<char>::empty());
        assert(lines(decode_utf8(p)) =~= Seq::<Seq<char>>::empty());
    } else {
        let x = p + q;
        let k = p.len() - 1;
        assert(x[k] == 10u8);
        lemma_split_after_newline(x, k);
        assert(x.take(k + 1) =~= p);
        assert(x.skip(k + 1) =~= q);
        lemma_decode_concat(p, q);
        crate::text::lemma_lines_append(decode_utf8(p), decode_utf8(q));
        lemma_sse_lines_append(st, lines(decode_utf8(p)), lines(decode_utf8(q)));
    }
}

/// A block of the event stream, decoded leniently and taken line by line.
pub open spec fn sse_collect(st: SseCapture, bytes: Seq<u8>) -> SseCapture {
    sse_lines(st, lines(utf8_lossy(bytes)))
}

/// The capture held in the three places that `collect_sse_content` updates.
pub open spec fn capture_of(content: String, first: Option<Json>, usage: Option<Json>) -> SseCapture {
    SseCapture { content: content@, first: opt_json_view(first), usage: opt_json_view(usage) }
}

/// The lines of `s` from `pos` on: the one that starts at `pos`, then the rest.
proof fn lemma_lines_step(s: Seq<char>, pos: int, k: int)
    requires
        0 <= pos < s.len(),
        k == pos + newline_index(s.skip(pos)),
    ensures
        k < s.len() ==> lines(s.skip(pos)) == seq![
            crate::text::drop_cr(s.subrange(pos, k)),
        ] + lines(s.skip(k + 1)),
        k >= s.len() ==> lines(s.skip(pos)) == seq![s.subrange(pos, s.len() as int)],
{
    let w = s.skip(pos);
    crate::text::lemma_newline_index(w);
    if k < s.len() {
        assert(w.take(k - pos) =~= s.subrange(pos, k));
        assert(w.skip(k - pos + 1) =~= s.skip(k + 1));
    } else {
        assert(w =~= s.subrange(pos, s.len() as int));
    }
}

/// Records one line of the event stream.
fn collect_line(
    cs: &[char],
    lo: usize,
    hi: usize,
    content: &mut String,
    first_chunk: &mut Option<Json>,
    usage_chunk: &mut Option<Json>,
)
    requires
        lo <= hi <= cs@.len(),
    ensures
        capture_of(*final(content), *final(first_chunk), *final(usage_chunk)) == sse_line(
            capture_of(*old(content), *old(first_chunk), *old(usage_chunk)),
            cs@.subrange(lo as int, hi as int),
        ),
{
    let ghost line = cs@.subrange(lo as int, hi as int);
    assert(DATA_PREFIX@ == data_prefix()) by {
        assert(DATA_PREFIX@ =~= data_prefix());
    }
    assert(DONE_MARKER@ == done_marker()) by {
        assert(DONE_MARKER@ =~= done_marker());
    }
    if !starts_with_at(cs, lo, hi, DATA_PREFIX.as_slice()) {
        return ;
    }
    let dlo = lo + 6;
    assert(line.skip(6) =~= cs@.subrange(dlo as int, hi as int));
    if hi - dlo == 6 && starts_with_at(cs, dlo, hi, DONE_MARKER.as_slice()) {
        assert(line.skip(6) =~= done_marker());
        return ;
    }
    assert(line.skip(6) != done_marker()) by {
        if line.skip(6) == done_marker() {
            assert(done_marker().is_prefix_of(cs@.subrange(dlo as int, hi as int)));
        }
    }
    let data = string_from_chars(cs, dlo, hi);
    let value = match parse_json(data.as_str()) {
        Some(v) => v,
        None => return ,
    };
    record_sse_chunk(&value, content, first_chunk, usage_chunk);
}

/// Records one JSON chunk of the stream: the text of its
/// `choices[0].delta.content` is added to `content`; it becomes the first
/// chunk if there was none; it becomes the usage chunk if it has `usage`.
pub fn record_sse_chunk(
    value: &Json,
    content: &mut String,
    first_chunk: &mut Option<Json>,
    usage_chunk: &mut Option<Json>,
)
    ensures
        capture_of(*final(content), *final(first_chunk), *final(usage_chunk)) == sse_chunk(
            capture_of(*old(content), *old(first_chunk), *old(usage_chunk)),
            value@,
        ),
{
    if first_chunk.is_none() {
        *first_chunk = Some(value.deep_clone());
    }
    if value.get("usage").is_some() {
        *usage_chunk = Some(value.deep_clone());
    }
    let delta = match value.get("choices") {
        Some(choices) => match choices.at(0) {
            Some(choice) => match choice.get("delta") {
                Some(d) => match d.get("content") {
                    Some(c) => c.as_str(),
                    None => None,
                },
                None => None,
            },
            None => None,
        },
        None => None,
    };
    match delta {
        Some(s) => content.append(s),
        None => {
            assert(content@ =~= content@ + seq![]);
        },
    }
}

/// Takes a block of the event stream made of whole lines, decodes it leniently
/// (`String::from_utf8_lossy`) and records, line by line, each JSON chunk of a
/// `data: ` line: the first chunk seen, the last one that reports `usage`, and
/// the text of `choices[0].delta.content`. Cut anywhere right after a line
/// feed, the block gathers what its two parts gather one after the other.
pub fn collect_sse_content(
    bytes: &[u8],
    content: &mut String,
    first_chunk: &mut Option<Json>,
    usage_chunk: &mut Option<Json>,
)
    ensures
        capture_of(*final(content), *final(first_chunk), *final(usage_chunk)) == sse_collect(
            capture_of(*old(content), *old(first_chunk), *old(usage_chunk)),
            bytes@,
        ),
        forall|k: int|
            0 < k <= bytes@.len() && bytes@[k - 1] == 10u8 ==> capture_of(
                *final(content),
                *final(first_chunk),
                *final(usage_chunk),
            ) == sse_collect(
                sse_collect(
                    capture_of(*old(content), *old(first_chunk), *old(usage_chunk)),
                    #[trigger] bytes@.take(k),
                ),
                bytes@.skip(k),
            ),
{
    let ghost start = capture_of(*content, *first_chunk, *usage_chunk);
    let text = decode_utf8_lossy(bytes);
    proof {
        assert forall|k: int|
            0 < k <= bytes@.len() && bytes@[k - 1] == 10u8 implies sse_lines(
                start,
                lines(text@),
            ) == sse_collect(sse_collect(start, #[trigger] bytes@.take(k)), bytes@.skip(k)) by {
            let a = utf8_lossy(bytes@.take(k));
            let b = utf8_lossy(bytes@.skip(k));
            crate::text::lemma_lines_append(a, b);
            lemma_sse_lines_append(start, lines(a), lines(b));
        }
    }
    collect_sse_text(text.as_str(), content, first_chunk, usage_chunk);
}

/// Takes decoded text of the event stream and records, line by line
/// (`str::lines`), each JSON chunk of a `data: ` line that is not
/// `data: [DONE]`: the first chunk seen, the last one that reports `usage`,
/// and the text of `choices[0].delta.content`.
pub fn collect_sse_text(
    text: &str,
    content: &mut String,
    first_chunk: &mut Option<Json>,
    usage_chunk: &mut Option<Json>,
)
    ensures
        capture_of(*final(content), *final(first_chunk), *final(usage_chunk)) == sse_lines(
            capture_of(*old(content), *old(first_chunk), *old(usage_chunk)),
            lines(text@),
        ),
{
    let cs = chars_of(text);
    let n = cs.len();
    let ghost start = capture_of(*content, *first_chunk, *usage_chunk);
    let mut pos: usize = 0;
    assert(cs@.skip(0) =~= cs@);
    while pos < n
        invariant
            n == cs@.len(),
            cs@ == text@,
            pos <= n,
            sse_lines(start, lines(cs@)) == sse_lines(
                capture_of(*content, *first_chunk, *usage_chunk),
                lines(cs@.skip(pos as int)),
            ),
        decreases n - pos,
    {
        let k = find_newline(cs.as_slice(), pos, n);
        assert(cs@.subrange(pos as int, n as int) =~= cs@.skip(pos as int));
        proof {
            lemma_lines_step(cs@, pos as int, k as int);
        }
        let ghost before = capture_of(*content, *first_chunk, *usage_chunk);
        let ghost ls = lines(cs@.skip(pos as int));
        if k < n {
            let end = if k > pos && cs[k - 1] == '\r' {
                k - 1
            } else {
                k
            };
            assert(cs@.subrange(pos as int, end as int) == crate::text::drop_cr(
                cs@.subrange(pos as int, k as int),
            )) by {
                if k > pos && cs@[k - 1] == '\r' {
                    assert(cs@.subrange(pos as int, k as int).drop_last() =~= cs@.subrange(
                        pos as int,
                        end as int,
                    ));
                }
            }
            collect_line(cs.as_slice(), pos, end, content, first_chunk, usage_chunk);
            assert(ls[0] == cs@.subrange(pos as int, end as int));
            assert(ls.drop_first() =~= lines(cs@.skip(k + 1)));
            pos = k + 1;
        } else {
            collect_line(cs.as_slice(), pos, n, content, first_chunk, usage_chunk);
            assert(ls[0] == cs@.subrange(pos as int, n as int));
            assert(ls.drop_first() =~= lines(cs@.skip(n as int)));
            pos = n;
        }
    }
    assert(cs@.skip(n as int) =~= Seq::<char>::empty());
}

/// The message is one that a tool answered: its `role` is the string `tool`.
pub open spec fn role_is_tool(message: JsonValue) -> bool {
    match value_get(message, "role"@) {
        Some(role) => value_as_str(role) == Some("tool"@),
        None => false,
    }
}

/// One of the last `TOOL_RESULT_LOOKBACK` messages answers a tool call.
pub open spec fn recent_tool_result_in(messages: Seq<JsonValue>) -> bool {
    exists|i: int|
        0 <= i < messages.len() && messages.len() - TOOL_RESULT_LOOKBACK <= i && role_is_tool(
            #[trigger] messages[i],
        )
}

/// The request's `messages` is an array, and one of its last
/// `TOOL_RESULT_LOOKBACK` messages answers a tool call.
pub open spec fn has_recent_tool_result(request: ChatRequest) -> bool {
    match value_get(request.rest@, "messages"@) {
        Some(JsonValue::Array(messages)) => recent_tool_result_in(messages),
        _ => false,
    }
}

/// Whether one of the last messages of the request is a tool result.
pub fn request_has_recent_tool_result(request: &ChatRequest) -> (b: bool)
    ensures
        b == has_recent_tool_result(*request),
{
    let messages = match request.rest.get("messages") {
        Some(m) => match m.as_array() {
            Some(items) => items,
            None => return false,
        },
        None => return false,
    };
    let ghost ms = value_get(request.rest@, "messages"@).unwrap()->Array_0;
    let n = messages.len();
    let start = if n > TOOL_RESULT_LOOKBACK {
        n - TOOL_RESULT_LOOKBACK
    } else {
        0
    };
    let mut i = start;
    while i < n
        invariant
            start <= i <= n,
            value_get(request.rest@, "messages"@) == Some(JsonValue::Array(ms)),
            n == messages@.len(),
            n == ms.len(),
            start == (if n > TOOL_RESULT_LOOKBACK { n - TOOL_RESULT_LOOKBACK } else { 0 }),
            forall|m: int| 0 <= m < n ==> ms[m] == json_view_of(#[trigger] messages@[m]),
            forall|m: int| start <= m < i ==> !role_is_tool(#[trigger] ms[m]),
        decreases n - i,
    {
        let is_tool = match messages[i].get("role") {
            Some(role) => match role.as_str() {
                Some(r) => crate::text::str_eq(r, "tool"),
                None => false,
            },
            None => false,
        };
        if is_tool {
            assert(role_is_tool(ms[i as int]));
            assert(0 <= i < ms.len() && ms.len() - TOOL_RESULT_LOOKBACK <= i);
            assert(recent_tool_result_in(ms));
            return true;
        }
        i = i + 1;
    }
    false
}

/// The value of a document (for triggers).
pub open spec fn json_view_of(j: Json) -> JsonValue {
    j@
}

/// The `id` that the tool call events carry: the first chunk's, or a default.
pub open spec fn chunk_id(first: Option<JsonValue>) -> Seq<char> {
    match first {
        Some(f) => match value_get(f, "id"@) {
            Some(JsonValue::Str(s)) => s,
            _ => "chatcmpl-ollama-proxy"@,
        },
        None => "chatcmpl-ollama-proxy"@,
    }
}

/// The `created` time that the tool call events carry: the first chunk's, or 0.
pub open spec fn chunk_created(first: Option<JsonValue>) -> i64 {
    match first {
        Some(f) => match value_get(f, "created"@) {
            Some(c) => match value_as_i64(c) {
                Some(t) => t,
                None => 0,
            },
            None => 0,
        },
        None => 0,
    }
}

/// The number 0.
pub open spec fn zero() -> JsonValue {
    JsonValue::Number(NumberValue::PosInt(0))
}

/// A streamed completion chunk around one choice.
pub open spec fn chunk_envelope(id: Seq<char>, created: i64, model: Seq<char>, choice: JsonValue) -> JsonValue {
    JsonValue::Object(
        seq![
            ("id"@, JsonValue::Str(id)),
            ("object"@, JsonValue::Str("chat.completion.chunk"@)),
            ("created"@, i64_number(created)),
            ("model"@, JsonValue::Str(model)),
            ("choices"@, JsonValue::Array(seq![choice])),
        ],
    )
}

/// The choice that opens the tool call: role, call id, type and function name.
pub open spec fn opening_choice(call_id: Seq<char>, call_type: Seq<char>, name: Seq<char>) -> JsonValue {
    JsonValue::Object(
        seq![
            ("index"@, zero()),
            (
                "delta"@,
                JsonValue::Object(
                    seq![
                        ("role"@, JsonValue::Str("assistant"@)),
                        (
                            "tool_calls"@,
                            JsonValue::Array(
                                seq![
                                    JsonValue::Object(
                                        seq![
                                            ("index"@, zero()),
                                            ("id"@, JsonValue::Str(call_id)),
                                            ("type"@, JsonValue::Str(call_type)),
                                            (
                                                "function"@,
                                                JsonValue::Object(
                                                    seq![
                                                        ("name"@, JsonValue::Str(name)),
                                                        ("arguments"@, JsonValue::Str(""@)),
                                                    ],
                                                ),
                                            ),
                                        ],
                                    ),
                                ],
                            ),
                        ),
                    ],
                ),
            ),
            ("finish_reason"@, JsonValue::Null),
        ],
    )
}

/// The choice that carries the arguments of the tool call.
pub open spec fn arguments_choice(arguments: Seq<char>) -> JsonValue {
    JsonValue::Object(
        seq![
            ("index"@, zero()),
            (
                "delta"@,
                JsonValue::Object(
                    seq![
                        (
                            "tool_calls"@,
                            JsonValue::Array(
                                seq![
                                    JsonValue::Object(
                                        seq![
                                            ("index"@, zero()),
                                            (
                                                "function"@,
                                                JsonValue::Object(
                                                    seq![("arguments"@, JsonValue::Str(arguments))],
                                                ),
                                            ),
                                        ],
                                    ),
                                ],
                            ),
                        ),
                    ],
                ),
            ),
            ("finish_reason"@, JsonValue::Null),
        ],
    )
}

/// The choice that ends the message because of the tool call.
pub open spec fn finish_choice() -> JsonValue {
    JsonValue::Object(
        seq![
            ("index"@, zero()),
            ("delta"@, JsonValue::Object(seq![])),
            ("finish_reason"@, JsonValue::Str("tool_calls"@)),
        ],
    )
}

/// One server-sent event carrying `text`.
pub open spec fn sse_event(text: Seq<char>) -> Seq<char> {
    "data: "@ + text + "\n\n"@
}

/// The documents that stand for a tool call: the opening chunk, the
/// arguments chunk, the finishing chunk, and the usage chunk where there is one.
pub open spec fn tool_call_documents(
    model: Seq<char>,
    first: Option<JsonValue>,
    usage: Option<JsonValue>,
    call_id: Seq<char>,
    call_type: Seq<char>,
    name: Seq<char>,
    arguments: Seq<char>,
) -> Seq<JsonValue> {
    let id = chunk_id(first);
    let created = chunk_created(first);
    seq![
        chunk_envelope(id, created, model, opening_choice(call_id, call_type, name)),
        chunk_envelope(id, created, model, arguments_choice(arguments)),
        chunk_envelope(id, created, model, finish_choice()),
    ] + match usage {
        Some(u) => seq![u],
        None => seq![],
    }
}

/// One server-sent event per document, in order.
pub open spec fn sse_events(documents: Seq<JsonValue>) -> Seq<char>
    decreases documents.len(),
{
    if documents.len() == 0 {
        seq![]
    } else {
        sse_events(documents.drop_last()) + sse_event(json_text(documents.last()))
    }
}

/// The events that stand for a tool call, followed by `[DONE]`.
pub open spec fn tool_call_sse(
    model: Seq<char>,
    first: Option<JsonValue>,
    usage: Option<JsonValue>,
    call_id: Seq<char>,
    call_type: Seq<char>,
    name: Seq<char>,
    arguments: Seq<char>,
) -> Seq<char> {
    sse_events(tool_call_documents(model, first, usage, call_id, call_type, name, arguments))
        + "data: [DONE]\n\n"@
}

fn text(s: &str) -> (r: String)
    ensures
        r@ == s@,
{
    String::from_str(s)
}

fn str_json(s: &str) -> (j: Json)
    ensures
        j@ == JsonValue::Str(s@),
{
    Json::Str(text(s))
}

fn zero_json() -> (j: Json)
    ensures
        j@ == zero(),
{
    Json::Number(JsonNumber::PosInt(0))
}

fn i64_json(i: i64) -> (j: Json)
    ensures
        j@ == i64_number(i),
{
    if i < 0 {
        Json::Number(JsonNumber::NegInt(i))
    } else {
        Json::Number(JsonNumber::PosInt(i as u64))
    }
}

fn obj1(k0: &str, v0: Json) -> (j: Json)
    ensures
        j@ == JsonValue::Object(seq![(k0@, v0@)]),
{
    let j = Json::Object(vec![(text(k0), v0)]);
    assert(j@->Object_0 =~= seq![(k0@, v0@)]);
    j
}

fn obj2(k0: &str, v0: Json, k1: &str, v1: Json) -> (j: Json)
    ensures
        j@ == JsonValue::Object(seq![(k0@, v0@), (k1@, v1@)]),
{
    let j = Json::Object(vec![(text(k0), v0), (text(k1), v1)]);
    assert(j@->Object_0 =~= seq![(k0@, v0@), (k1@, v1@)]);
    j
}

fn obj3(k0: &str, v0: Json, k1: &str, v1: Json, k2: &str, v2: Json) -> (j: Json)
    ensures
        j@ == JsonValue::Object(seq![(k0@, v0@), (k1@, v1@), (k2@, v2@)]),
{
    let j = Json::Object(vec![(text(k0), v0), (text(k1), v1), (text(k2), v2)]);
    assert(j@->Object_0 =~= seq![(k0@, v0@), (k1@, v1@), (k2@, v2@)]);
    j
}

fn obj4(k0: &str, v0: Json, k1: &str, v1: Json, k2: &str, v2: Json, k3: &str, v3: Json) -> (j: Json)
    ensures
        j@ == JsonValue::Object(seq![(k0@, v0@), (k1@, v1@), (k2@, v2@), (k3@, v3@)]),
{
    let j = Json::Object(vec![(text(k0), v0), (text(k1), v1), (text(k2), v2), (text(k3), v3)]);
    assert(j@->Object_0 =~= seq![(k0@, v0@), (k1@, v1@), (k2@, v2@), (k3@, v3@)]);
    j
}

fn arr1(v0: Json) -> (j: Json)
    ensures
        j@ == JsonValue::Array(seq![v0@]),
{
    let j = Json::Array(vec![v0]);
    assert(j@->Array_0 =~= seq![v0@]);
    j
}

fn envelope_json(id: &str, created: i64, model: &str, choice: Json) -> (j: Json)
    ensures
        j@ == chunk_envelope(id@, created, model@, choice@),
{
    let j = Json::Object(
        vec![
            (text("id"), str_json(id)),
            (text("object"), str_json("chat.completion.chunk")),
            (text("created"), i64_json(created)),
            (text("model"), str_json(model)),
            (text("choices"), arr1(choice)),
        ],
    );
    assert(j@->Object_0 =~= chunk_envelope(id@, created, model@, choice@)->Object_0);
    j
}

/// The values of a list of documents.
pub open spec fn documents_view(documents: Seq<Json>) -> Seq<JsonValue> {
    Seq::new(documents.len(), |i: int| documents[i]@)
}

/// The chunk documents that deliver `tool_call` as a streamed tool call of
/// `model`: they carry the id and creation time of the server's first chunk
/// (or `chatcmpl-ollama-proxy` and 0), and end with the server's usage chunk
/// where there was one.
pub fn tool_call_events(
    model: &str,
    first_chunk: &Option<Json>,
    usage_chunk: &Option<Json>,
    tool_call: ToolCallChunk,
) -> (documents: Vec<Json>)
    ensures
        documents_view(documents@) == tool_call_documents(
            model@,
            opt_json_view(*first_chunk),
            opt_json_view(*usage_chunk),
            tool_call.id@,
            tool_call.call_type@,
            tool_call.function.name@,
            tool_call.function.arguments@,
        ),
{
    let ghost first = opt_json_view(*first_chunk);
    let id: &str = match first_chunk {
        Some(f) => match f.get("id") {
            Some(v) => match v.as_str() {
                Some(s) => s,
                None => "chatcmpl-ollama-proxy",
            },
            None => "chatcmpl-ollama-proxy",
        },
        None => "chatcmpl-ollama-proxy",
    };
    assert(id@ == chunk_id(first));
    let created: i64 = match first_chunk {
        Some(f) => match f.get("created") {
            Some(v) => match v.as_i64() {
                Some(t) => t,
                None => 0,
            },
            None => 0,
        },
        None => 0,
    };
    assert(created == chunk_created(first));
    let ghost call = tool_call;
    let ToolCallChunk { id: call_id, call_type, function } = tool_call;
    let opening = obj3(
        "index",
        zero_json(),
        "delta",
        obj2(
            "role",
            str_json("assistant"),
            "tool_calls",
            arr1(
                obj4(
                    "index",
                    zero_json(),
                    "id",
                    Json::Str(call_id),
                    "type",
                    Json::Str(call_type),
                    "function",
                    obj2("name", Json::Str(function.name), "arguments", str_json("")),
                ),
            ),
        ),
        "finish_reason",
        Json::Null,
    );
    let args = obj3(
        "index",
        zero_json(),
        "delta",
        obj1(
            "tool_calls",
            arr1(
                obj2(
                    "index",
                    zero_json(),
                    "function",
                    obj1("arguments", Json::Str(function.arguments)),
                ),
            ),
        ),
        "finish_reason",
        Json::Null,
    );
    let empty = Json::Object(Vec::new());
    assert(empty@->Object_0 =~= Seq::<(Seq<char>, JsonValue)>::empty());
    let finish = obj3("index", zero_json(), "delta", empty, "finish_reason", str_json("tool_calls"));
    let mut documents: Vec<Json> = Vec::new();
    documents.push(envelope_json(id, created, model, opening));
    documents.push(envelope_json(id, created, model, args));
    documents.push(envelope_json(id, created, model, finish));
    match usage_chunk {
        Some(usage) => documents.push(usage.deep_clone()),
        None => {},
    }
    assert(documents_view(documents@) =~= tool_call_documents(
        model@,
        first,
        opt_json_view(*usage_chunk),
        call.id@,
        call.call_type@,
        call.function.name@,
        call.function.arguments@,
    ));
    documents
}

/// Appends one server-sent event carrying the JSON text of `value`.
fn push_event(out: &mut String, value: &Json)
    ensures
        final(out)@ == old(out)@ + sse_event(json_text(value@)),
{
    let body = to_json_text(value);
    out.append("data: ");
    out.append(body.as_str());
    out.append("\n\n");
    assert(final(out)@ =~= old(out)@ + sse_event(json_text(value@)));
}

/// Writes the server-sent events that deliver `tool_call` as a streamed tool
/// call of `model`, with the id and creation time of the first chunk the
/// server sent, its usage chunk where there was one, and a final `[DONE]`.
pub fn build_tool_call_sse(
    model: &str,
    first_chunk: Option<Json>,
    usage_chunk: Option<Json>,
    tool_call: ToolCallChunk,
) -> (out: String)
    ensures
        out@ == tool_call_sse(
            model@,
            opt_json_view(first_chunk),
            opt_json_view(usage_chunk),
            tool_call.id@,
            tool_call.call_type@,
            tool_call.function.name@,
            tool_call.function.arguments@,
        ),
{
    let documents = tool_call_events(model, &first_chunk, &usage_chunk, tool_call);
    let ghost docs = documents_view(documents@);
    let mut out = String::new();
    let mut i: usize = 0;
    assert(docs.take(0) =~= Seq::<JsonValue>::empty());
    while i < documents.len()
        invariant
            docs == documents_view(documents@),
            i <= documents@.len(),
            out@ == sse_events(docs.take(i as int)),
        decreases documents.len() - i,
    {
        push_event(&mut out, &documents[i]);
        assert(docs.take(i + 1).drop_last() =~= docs.take(i as int));
        i = i + 1;
    }
    assert(docs.take(documents@.len() as int) =~= docs);
    out.append("data: [DONE]\n\n");
    out
}

} // verus!
