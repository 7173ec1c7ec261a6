//! Recognising a tool call that a model wrote as JSON text, possibly inside a
//! Markdown code fence.
use vstd::prelude::*;

use crate::json::{json_text, to_json_text, Json, JsonValue};
use crate::openai::{ChatRequest, ToolCallChunk, ToolCallFunctionChunk};
use crate::text::{
    chars_of, ends_with_at, is_white_space, skip_white_space, skip_white_space_back,
    starts_with_at, strip_leading, strip_leading_at, strip_trailing, strip_trailing_at, str_eq,
    trim, trim_end, trim_start,
};

verus! {

/// The opening of a fence that announces JSON: "```json".
pub const TOOL_CALL_BEGIN_JSON: [char; 7] = ['`', '`', '`', 'j', 's', 'o', 'n'];

/// A bare fence: "```".
pub const FENCE: [char; 3] = ['`', '`', '`'];

/// "{", the way a bare JSON tool call begins.
pub open spec fn json_begin() -> Seq<char> {
    seq!['{']
}

/// "`", the way a fenced tool call begins.
pub open spec fn fence_begin() -> Seq<char> {
    seq!['`']
}

/// How a bare JSON tool call begins: "{".
pub const JSON_BEGIN_FORMAT: [char; 1] = ['{'];

/// How a fenced tool call begins: "`".
pub const TOOL_CALL_CONTAINER: [char; 1] = ['`'];

/// "```json".
pub open spec fn fence_json() -> Seq<char> {
    seq!['`', '`', '`', 'j', 's', 'o', 'n']
}

/// "```".
pub open spec fn fence() -> Seq<char> {
    seq!['`', '`', '`']
}

/// What `strip_json_fence` leaves of a text: the inside of a ```json or ```
/// fence (fence marks removed as often as they repeat, then trimmed), or an
/// unfenced text that starts with `{` and ends with `}`; nothing otherwise.
pub open spec fn fence_contents(s: Seq<char>) -> Option<Seq<char>> {
    if fence_json().is_prefix_of(s) && fence().is_suffix_of(s) {
        Some(trim(strip_trailing(strip_leading(s, fence_json()), fence())))
    } else if fence().is_prefix_of(s) && fence().is_suffix_of(s) {
        Some(trim(strip_trailing(strip_leading(s, fence()), fence())))
    } else if s.len() > 0 && s[0] == '{' && s.last() == '}' {
        Some(s)
    } else {
        None
    }
}

/// A tool call as a model writes it, `{"name": .., "arguments": ..}` (or the
/// sequence form `[name, arguments]`): what deserialising the text of a
/// possible tool call into this shape gives. That deserialisation refuses a
/// text that is not such a document, and an object that repeats `name` or
/// `arguments`.
#[derive(Debug)]
pub struct RawToolCall {
    pub name: String,
    pub arguments: Json,
}

/// A raw tool call as values.
pub struct RawCallView {
    pub name: Seq<char>,
    pub arguments: JsonValue,
}

impl View for RawToolCall {
    type V = RawCallView;

    open spec fn view(&self) -> RawCallView {
        RawCallView { name: self.name@, arguments: self.arguments@ }
    }
}

/// The view of a raw tool call that may be missing.
pub open spec fn opt_raw_view(r: Option<RawToolCall>) -> Option<RawCallView> {
    match r {
        Some(raw) => Some(raw@),
        None => None,
    }
}

/// The text of a model's answer that is read as a tool call: the answer,
/// trimmed and taken out of its fence.
pub open spec fn tool_call_text(content: Seq<char>) -> Option<Seq<char>> {
    fence_contents(trim(content))
}

/// The request offers a tool of type `function` with this name.
pub open spec fn tool_allowed(request: ChatRequest, name: Seq<char>) -> bool {
    exists|i: int|
        0 <= i < request.tools@.len() && (#[trigger] request.tools@[i]).tool_type@ == "function"@
            && request.tools@[i].function.name@ == name
}

/// The tool call that a deserialised raw tool call stands for: one of a
/// function tool that the request offers, with an object as arguments. The
/// result is the function's name and the arguments printed as compact JSON.
/// Where deserialising refused the text, there is none.
pub open spec fn normalized_call(parsed: Option<RawCallView>, request: ChatRequest) -> Option<
    (Seq<char>, Seq<char>),
> {
    match parsed {
        Some(raw) => if tool_allowed(request, raw.name) && raw.arguments is Object {
            Some((raw.name, json_text(raw.arguments)))
        } else {
            None
        },
        None => None,
    }
}

/// The bounds of `fence_contents` of `cs[lo..hi]` inside `cs`.
pub(crate) fn fence_range(cs: &[char], lo: usize, hi: usize) -> (r: Option<(usize, usize)>)
    requires
        lo <= hi <= cs@.len(),
    ensures
        match r {
            Some((a, b)) => lo <= a <= b <= hi && fence_contents(cs@.subrange(lo as int, hi as int))
                == Some(cs@.subrange(a as int, b as int)),
            None => fence_contents(cs@.subrange(lo as int, hi as int)) is None,
        },
{
    let ghost w = cs@.subrange(lo as int, hi as int);
    assert(TOOL_CALL_BEGIN_JSON@ == fence_json()) by {
        assert(TOOL_CALL_BEGIN_JSON@ =~= fence_json());
    }
    assert(FENCE@ == fence()) by {
        assert(FENCE@ =~= fence());
    }
    let opening: &[char] = if starts_with_at(cs, lo, hi, TOOL_CALL_BEGIN_JSON.as_slice()) && ends_with_at(
        cs,
        lo,
        hi,
        FENCE.as_slice(),
    ) {
        TOOL_CALL_BEGIN_JSON.as_slice()
    } else if starts_with_at(cs, lo, hi, FENCE.as_slice()) && ends_with_at(
        cs,
        lo,
        hi,
        FENCE.as_slice(),
    ) {
        FENCE.as_slice()
    } else {
        if hi > lo && cs[lo] == '{' && cs[hi - 1] == '}' {
            return Some((lo, hi));
        }
        return None;
    };
    let a = strip_leading_at(cs, lo, hi, opening);
    let b = strip_trailing_at(cs, a, hi, FENCE.as_slice());
    let a2 = skip_white_space(cs, a, b);
    let b2 = skip_white_space_back(cs, a2, b);
    Some((a2, b2))
}

/// Takes a model's text out of its code fence: the inside of a ```json or ```
/// fence, trimmed, or the text itself where it is an unfenced `{ .. }`.
pub fn strip_json_fence(input: &str) -> (r: Option<&str>)
    ensures
        match r {
            Some(s) => fence_contents(input@) == Some(s@),
            None => fence_contents(input@) is None,
        },
{
    let cs = chars_of(input);
    assert(cs@.subrange(0, cs@.len() as int) =~= input@);
    match fence_range(cs.as_slice(), 0, cs.len()) {
        Some((a, b)) => Some(input.substring_char(a, b)),
        None => None,
    }
}

/// Whether the request offers a function tool named `name`.
fn offers_tool(request: &ChatRequest, name: &str) -> (b: bool)
    ensures
        b == tool_allowed(*request, name@),
{
    let mut i: usize = 0;
    while i < request.tools.len()
        invariant
            i <= request.tools@.len(),
            forall|m: int|
                0 <= m < i ==> !((#[trigger] request.tools@[m]).tool_type@ == "function"@
                    && request.tools@[m].function.name@ == name@),
        decreases request.tools.len() - i,
    {
        let tool = &request.tools[i];
        if str_eq(tool.tool_type.as_str(), "function") && str_eq(tool.function.name.as_str(), name) {
            return true;
        }
        i = i + 1;
    }
    false
}

/// The text of a model's answer that is to be read as a tool call: the answer,
/// trimmed and taken out of its fence, where it has the shape of one.
pub fn raw_tool_call_text(content: &str) -> (r: Option<&str>)
    ensures
        match r {
            Some(t) => tool_call_text(content@) == Some(t@),
            None => tool_call_text(content@) is None,
        },
{
    let cs = chars_of(content);
    let n = cs.len();
    let a = skip_white_space(cs.as_slice(), 0, n);
    let b = skip_white_space_back(cs.as_slice(), a, n);
    assert(cs@.subrange(0, n as int) =~= content@);
    match fence_range(cs.as_slice(), a, b) {
        Some((c0, c1)) => Some(content.substring_char(c0, c1)),
        None => None,
    }
}

/// Turns a tool call that a model wrote as text into a tool call chunk.
/// `parsed` is what deserialising the text that `raw_tool_call_text` picks
/// out into a `RawToolCall` gave: nothing where that refused the text (not
/// JSON, not of that shape, or an object that repeats `name` or `arguments`).
/// The call must name a function tool of the request and have an object as
/// arguments; they go out printed as compact JSON.
pub fn try_normalize_raw_tool_call(parsed: &Option<RawToolCall>, request: &ChatRequest) -> (r:
    Option<ToolCallChunk>)
    ensures
        match r {
            Some(call) => {
                &&& normalized_call(opt_raw_view(*parsed), *request) == Some(
                    (call.function.name@, call.function.arguments@),
                )
                &&& call.id@ == "call_ollama_proxy_1"@
                &&& call.call_type@ == "function"@
            },
            None => normalized_call(opt_raw_view(*parsed), *request) is None,
        },
{
    let raw = match parsed {
        Some(raw) => raw,
        None => return None,
    };
    if !offers_tool(request, raw.name.as_str()) {
        return None;
    }
    if !raw.arguments.is_object() {
        return None;
    }
    let arguments = to_json_text(&raw.arguments);
    Some(
        ToolCallChunk {
            id: String::from_str("call_ollama_proxy_1"),
            call_type: String::from_str("function"),
            function: ToolCallFunctionChunk { name: raw.name.clone(), arguments },
        },
    )
}

/// Law: a recognised tool call is always a call of a function tool that the
/// request offers, with a JSON object as arguments, printed as JSON text; and
/// a text that deserialising refused (among them an object that repeats
/// `name` or `arguments`) is never a tool call.
pub proof fn lemma_tool_call_is_offered(parsed: Option<RawCallView>, request: ChatRequest)
    ensures
        normalized_call(parsed, request) matches Some((name, arguments)) ==> {
            &&& tool_allowed(request, name)
            &&& parsed matches Some(raw) && raw.name == name && raw.arguments is Object
                && arguments == json_text(raw.arguments)
        },
        parsed is None ==> normalized_call(parsed, request) is None,
{
}

/// Law: a deserialised call is accepted exactly when its arguments are an
/// object and some tool of the request, at any place in its list, is a
/// function tool of that name; the call then keeps its name and carries its
/// arguments printed as JSON.
pub proof fn lemma_call_accepted_iff_offered(raw: RawCallView, request: ChatRequest)
    ensures
        normalized_call(Some(raw), request) is Some <==> (raw.arguments is Object && exists|i: int|
            0 <= i < request.tools@.len() && (#[trigger] request.tools@[i]).tool_type@
                == "function"@ && request.tools@[i].function.name@ == raw.name),
        normalized_call(Some(raw), request) is Some ==> normalized_call(Some(raw), request)
            == Some((raw.name, json_text(raw.arguments))),
{
}

/// Law: offering more tools never refuses a call that was accepted. Where
/// every tool of `fewer` also stands, with the same type and name, somewhere
/// among the tools of `more`, a call accepted for `fewer` is accepted for
/// `more` as the same call.
pub proof fn lemma_more_tools_accept_more(raw: RawCallView, fewer: ChatRequest, more: ChatRequest)
    requires
        forall|i: int|
            0 <= i < fewer.tools@.len() ==> exists|j: int|
                0 <= j < more.tools@.len() && (#[trigger] more.tools@[j]).tool_type@ == (
                #[trigger] fewer.tools@[i]).tool_type@ && more.tools@[j].function.name@
                    == fewer.tools@[i].function.name@,
    ensures
        normalized_call(Some(raw), fewer) is Some ==> normalized_call(Some(raw), more)
            == normalized_call(Some(raw), fewer),
{
    if normalized_call(Some(raw), fewer) is Some {
        let i = choose|i: int|
            0 <= i < fewer.tools@.len() && (#[trigger] fewer.tools@[i]).tool_type@ == "function"@
                && fewer.tools@[i].function.name@ == raw.name;
        let j = choose|j: int|
            0 <= j < more.tools@.len() && (#[trigger] more.tools@[j]).tool_type@
                == fewer.tools@[i].tool_type@ && more.tools@[j].function.name@
                == fewer.tools@[i].function.name@;
        assert(tool_allowed(more, raw.name)) by {
            assert(more.tools@[j].tool_type@ == "function"@);
        }
    }
}

/// A text that starts with `{` and ends with `}` is its own fence contents,
/// and trimming leaves it as it is.
proof fn lemma_bare_object(body: Seq<char>)
    requires
        body.len() > 0,
        body[0] == '{',
        body.last() == '}',
    ensures
        trim(body) == body,
        fence_contents(body) == Some(body),
{
    assert(!fence_json().is_prefix_of(body)) by {
        if fence_json().is_prefix_of(body) {
            assert(body[0] == fence_json()[0]);
        }
    }
    assert(!fence().is_prefix_of(body)) by {
        if fence().is_prefix_of(body) {
            assert(body[0] == fence()[0]);
        }
    }
}

/// The inside of a fence around `body`, on lines of their own.
pub open spec fn fence_inside(body: Seq<char>) -> Seq<char> {
    seq!['\n'] + body + seq!['\n']
}

/// `s` neither begins nor ends with white space.
pub open spec fn plain_edges(s: Seq<char>) -> bool {
    s.len() == 0 || (!is_white_space(s[0]) && !is_white_space(s.last()))
}

proof fn lemma_trim_start_len(s: Seq<char>)
    ensures
        trim_start(s).len() <= s.len(),
    decreases s.len(),
{
    if s.len() > 0 && is_white_space(s[0]) {
        lemma_trim_start_len(s.drop_first());
    }
}

proof fn lemma_trim_end_len(s: Seq<char>)
    ensures
        trim_end(s).len() <= s.len(),
    decreases s.len(),
{
    if s.len() > 0 && is_white_space(s.last()) {
        lemma_trim_end_len(s.drop_last());
    }
}

/// A text that trimming leaves as it is neither begins nor ends with white space.
proof fn lemma_trimmed_edges(s: Seq<char>)
    requires
        trim(s) == s,
    ensures
        plain_edges(s),
{
    lemma_trim_end_len(trim_start(s));
    if s.len() > 0 {
        if is_white_space(s[0]) {
            lemma_trim_start_len(s.drop_first());
        } else {
            assert(trim_start(s) == s);
            if is_white_space(s.last()) {
                lemma_trim_end_len(s.drop_last());
            }
        }
    }
}

proof fn lemma_inside_trims(body: Seq<char>)
    requires
        plain_edges(body),
    ensures
        trim(fence_inside(body)) == body,
{
    let inner = fence_inside(body);
    let b1 = body + seq!['\n'];
    assert(inner.drop_first() =~= b1);
    assert(is_white_space(inner[0]));
    assert(trim_start(inner) == trim_start(inner.drop_first()));
    if body.len() == 0 {
        assert(b1.drop_first() =~= Seq::<char>::empty());
        assert(is_white_space(b1[0]));
        assert(trim_start(b1) == trim_start(b1.drop_first()));
        assert(trim_start(Seq::<char>::empty()) == Seq::<char>::empty());
        assert(trim_end(Seq::<char>::empty()) == Seq::<char>::empty());
        assert(body =~= Seq::<char>::empty());
    } else {
        assert(b1[0] == body[0]);
        assert(trim_start(b1) == b1);
        assert(b1.drop_last() =~= body);
        assert(is_white_space(b1.last()));
        assert(trim_end(b1) == trim_end(b1.drop_last()));
        assert(trim_end(body) == body);
    }
}

proof fn lemma_closing_strips(body: Seq<char>)
    ensures
        strip_trailing(fence_inside(body) + fence(), fence()) == fence_inside(body),
        !fence_json().is_prefix_of(fence_inside(body) + fence()),
        !fence().is_prefix_of(fence_inside(body) + fence()),
{
    let inner = fence_inside(body);
    let closing = inner + fence();
    assert(closing.subrange(closing.len() - 3, closing.len() as int) =~= fence());
    assert(closing.take(closing.len() - 3) =~= inner);
    assert(!fence().is_suffix_of(inner)) by {
        if fence().is_suffix_of(inner) {
            assert(inner.subrange(inner.len() - 3, inner.len() as int)[2] == inner.last());
        }
    }
    assert(strip_trailing(inner, fence()) == inner);
    assert(!fence_json().is_prefix_of(closing)) by {
        if fence_json().is_prefix_of(closing) {
            assert(closing.subrange(0, 7)[0] == closing[0]);
        }
    }
    assert(!fence().is_prefix_of(closing)) by {
        if fence().is_prefix_of(closing) {
            assert(closing.subrange(0, 3)[0] == closing[0]);
        }
    }
}

proof fn lemma_json_fence_contents(body: Seq<char>)
    requires
        plain_edges(body),
    ensures
        trim(fence_json() + (fence_inside(body) + fence())) == fence_json() + (fence_inside(body)
            + fence()),
        fence_contents(fence_json() + (fence_inside(body) + fence())) == Some(body),
{
    lemma_inside_trims(body);
    lemma_closing_strips(body);
    let closing = fence_inside(body) + fence();
    let whole = fence_json() + closing;
    assert(!is_white_space(whole[0]));
    assert(trim_start(whole) == whole);
    assert(whole.last() == '`');
    assert(trim_end(whole) == whole);
    assert(whole.subrange(0, 7) =~= fence_json());
    assert(whole.subrange(whole.len() - 3, whole.len() as int) =~= fence());
    assert(whole.skip(7) =~= closing);
    assert(strip_leading(whole, fence_json()) == strip_leading(closing, fence_json()));
}

proof fn lemma_bare_fence_contents(body: Seq<char>)
    requires
        plain_edges(body),
    ensures
        trim(fence() + (fence_inside(body) + fence())) == fence() + (fence_inside(body) + fence()),
        fence_contents(fence() + (fence_inside(body) + fence())) == Some(body),
{
    lemma_inside_trims(body);
    lemma_closing_strips(body);
    let closing = fence_inside(body) + fence();
    let whole = fence() + closing;
    assert(!is_white_space(whole[0]));
    assert(trim_start(whole) == whole);
    assert(whole.last() == '`');
    assert(trim_end(whole) == whole);
    assert(!fence_json().is_prefix_of(whole)) by {
        if fence_json().is_prefix_of(whole) {
            assert(whole.subrange(0, 7)[3] == whole[3]);
        }
    }
    assert(whole.subrange(0, 3) =~= fence());
    assert(whole.subrange(whole.len() - 3, whole.len() as int) =~= fence());
    assert(whole.skip(3) =~= closing);
    assert(strip_leading(whole, fence()) == strip_leading(closing, fence()));
}

/// Law: unfencing undoes fencing. A text that trimming leaves as it is, put
/// inside a ```json or a ``` fence with each fence mark on a line of its own,
/// is taken out of the fence as it was, also as the text read as a tool call.
pub proof fn lemma_unfence_undoes_fence(s: Seq<char>)
    requires
        trim(s) == s,
    ensures
        fence_contents(fence_json() + fence_inside(s) + fence()) == Some(s),
        fence_contents(fence() + fence_inside(s) + fence()) == Some(s),
        tool_call_text(fence_json() + fence_inside(s) + fence()) == Some(s),
        tool_call_text(fence() + fence_inside(s) + fence()) == Some(s),
{
    lemma_trimmed_edges(s);
    lemma_json_fence_contents(s);
    lemma_bare_fence_contents(s);
    assert(fence_json() + fence_inside(s) + fence() =~= fence_json() + (fence_inside(s) + fence()));
    assert(fence() + fence_inside(s) + fence() =~= fence() + (fence_inside(s) + fence()));
}

/// Law: a tool call reads the same whether the model wrote it bare or inside
/// a ```json or ``` fence, each fence mark on a line of its own: the same text
/// is read as the tool call.
pub proof fn lemma_fenced_call_reads_as_bare(body: Seq<char>)
    requires
        body.len() > 0,
        body[0] == '{',
        body.last() == '}',
    ensures
        tool_call_text(body) == Some(body),
        tool_call_text(fence_json() + fence_inside(body) + fence()) == Some(body),
        tool_call_text(fence() + fence_inside(body) + fence()) == Some(body),
{
    lemma_bare_object(body);
    lemma_json_fence_contents(body);
    lemma_bare_fence_contents(body);
    assert(fence_json() + fence_inside(body) + fence() =~= fence_json() + (fence_inside(body)
        + fence()));
    assert(fence() + fence_inside(body) + fence() =~= fence() + (fence_inside(body) + fence()));
}

} // verus!
