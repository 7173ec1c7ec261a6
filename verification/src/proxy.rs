//! The decisions of the chat completion proxy: which request headers go on
//! to the server, and what becomes of the server's event stream.
use vstd::prelude::*;

use crate::json::{opt_json_view, Json};
use crate::normalizer::{
    fence, fence_begin, fence_contents, fence_json, fence_range, json_begin, normalized_call,
    fence_inside, lemma_unfence_undoes_fence, opt_raw_view, raw_tool_call_text, tool_allowed,
    tool_call_text, try_normalize_raw_tool_call,
    RawCallView, RawToolCall, JSON_BEGIN_FORMAT, TOOL_CALL_BEGIN_JSON, TOOL_CALL_CONTAINER,
};
use crate::openai::ChatRequest;
use crate::sse::{build_tool_call_sse, tool_call_sse, SseCapture, RAW_TOOL_CALL_PASSTHROUGH_THRESHOLD};
use crate::stream::{
    absorb, absorb_bytes, actions_view, append_bytes, chunk_bytes, chunk_sends, done_event,
    is_close, stays_open,
    lemma_chunk_bytes_append, lemma_chunk_bytes_push, lemma_sent_append, lemma_sent_push, sent, take_bytes, ActionView,
    EventView, LogLabel, StreamAction, StreamEnd, StreamEvent,
};
use crate::text::{
    chars_of, is_start_of, is_white_space, skip_white_space, starts_with_at, trim, trim_start,
    utf8_len, utf8_len_exceeds,
};

verus! {

/// The state of a proxied stream.
pub struct ProxyView {
    /// Every byte received from the server.
    pub raw: Seq<u8>,
    /// Received bytes not yet sent on.
    pub buffered: Seq<u8>,
    /// The unfinished last line of the event stream.
    pub line_buf: Seq<u8>,
    /// What the whole lines have told so far.
    pub cap: SseCapture,
    /// The model's text looks like the start of a tool call.
    pub maybe_tool_call: bool,
    /// The stream is passed through unchanged from now on.
    pub passthrough: bool,
    /// A text was handed out to be deserialised as a tool call; the answer
    /// is awaited.
    pub awaiting: bool,
    /// The tool call sent in place of the stream, once there is one: the
    /// function's name and its arguments as JSON text.
    pub call: Option<(Seq<char>, Seq<char>)>,
    /// How the stream ended, once it has.
    pub end: Option<StreamEnd>,
}

/// The state before anything arrived.
pub open spec fn proxy_initial() -> ProxyView {
    ProxyView {
        raw: seq![],
        buffered: seq![],
        line_buf: seq![],
        cap: SseCapture { content: seq![], first: None, usage: None },
        maybe_tool_call: false,
        passthrough: false,
        awaiting: false,
        call: None,
        end: None,
    }
}

/// Switch to passing through: send what is held back.
pub open spec fn proxy_pass(s: ProxyView) -> (ProxyView, Seq<ActionView>) {
    (ProxyView { passthrough: true, buffered: seq![], ..s }, seq![ActionView::Send(s.buffered)])
}

/// The bytes of the events that deliver a recognised tool call.
pub open spec fn tool_call_bytes(
    cap: SseCapture,
    request: ChatRequest,
    name: Seq<char>,
    arguments: Seq<char>,
) -> Seq<u8> {
    vstd::utf8::encode_utf8(
        tool_call_sse(
            request.model@,
            cap.first,
            cap.usage,
            "call_ollama_proxy_1"@,
            "function"@,
            name,
            arguments,
        ),
    )
}

/// End the stream with a recognised tool call: log its events and the
/// server's bytes, then send the tool call's events.
pub open spec fn finish_with_tool_call(
    s: ProxyView,
    request: ChatRequest,
    name: Seq<char>,
    arguments: Seq<char>,
) -> (ProxyView, Seq<ActionView>) {
    let bytes = tool_call_bytes(s.cap, request, name, arguments);
    (
        ProxyView { end: Some(StreamEnd::ToolCall), call: Some((name, arguments)), ..s },
        seq![
            ActionView::Log(LogLabel::ProxyNormalizedToolCall, bytes),
            ActionView::Log(LogLabel::OllamaResponseStream, s.raw),
            ActionView::Send(bytes),
        ],
    )
}

/// No tool call in the text (yet): give up on one once the text is a closed
/// fence or longer than the threshold; wait for more text otherwise.
pub open spec fn proxy_no_call(s: ProxyView) -> (ProxyView, Seq<ActionView>) {
    if fence_contents(trim_start(s.cap.content)) is Some || utf8_len(s.cap.content)
        > RAW_TOOL_CALL_PASSTHROUGH_THRESHOLD {
        proxy_pass(s)
    } else {
        (s, seq![])
    }
}

/// With a possible tool call in view: where the text, taken out of its fence,
/// has the shape of one, hand it out to be deserialised and wait for the
/// answer; otherwise there is no tool call.
pub open spec fn proxy_examine(s: ProxyView) -> (ProxyView, Seq<ActionView>) {
    match tool_call_text(s.cap.content) {
        Some(text) => (ProxyView { awaiting: true, ..s }, seq![ActionView::Parse(text)]),
        None => proxy_no_call(s),
    }
}

/// The answer about the text handed out: a tool call of the request is sent
/// in place of the stream; without one, as when there is no tool call.
pub open spec fn proxy_resolve(s: ProxyView, parsed: Option<RawCallView>, request: ChatRequest) -> (
    ProxyView,
    Seq<ActionView>,
) {
    let s1 = ProxyView { awaiting: false, ..s };
    match normalized_call(parsed, request) {
        Some((name, arguments)) => finish_with_tool_call(s1, request, name, arguments),
        None => proxy_no_call(s1),
    }
}

/// After new text: text that cannot begin a tool call sends the stream
/// through; text that may be one is examined; a lone beginning of a fence waits.
pub open spec fn proxy_decide(s: ProxyView) -> (ProxyView, Seq<ActionView>) {
    let trimmed = trim_start(s.cap.content);
    if s.maybe_tool_call {
        proxy_examine(s)
    } else if fence_json().is_prefix_of(trimmed) || json_begin().is_prefix_of(trimmed) {
        proxy_examine(ProxyView { maybe_tool_call: true, ..s })
    } else if fence_begin().is_prefix_of(trimmed) {
        if !trimmed.is_prefix_of(fence_json()) {
            proxy_pass(s)
        } else {
            (s, seq![])
        }
    } else if trimmed.len() > 0 {
        proxy_pass(s)
    } else {
        (s, seq![])
    }
}

/// End the stream: log the server's bytes under `label`, send what is held
/// back, then, where `with_done`, the closing `[DONE]` event.
pub open spec fn proxy_close(s: ProxyView, label: LogLabel, end: StreamEnd, with_done: bool) -> (
    ProxyView,
    Seq<ActionView>,
) {
    (
        ProxyView { end: Some(end), buffered: seq![], ..s },
        seq![ActionView::Log(label, s.raw)] + (if s.buffered.len() > 0 {
            seq![ActionView::Send(s.buffered)]
        } else {
            seq![]
        }) + (if with_done {
            seq![ActionView::Send(done_event())]
        } else {
            seq![]
        }),
    )
}

/// One event, of the server's stream or the answer to a `Parse`, and what the
/// proxy does about it.
pub open spec fn proxy_step(s: ProxyView, e: EventView, request: ChatRequest) -> (
    ProxyView,
    Seq<ActionView>,
) {
    if s.end is Some {
        (s, seq![])
    } else {
        match e {
            EventView::Chunk(b) => if s.passthrough {
                (ProxyView { raw: s.raw + b, ..s }, seq![ActionView::Send(b)])
            } else {
                let (lb, cap) = absorb(s.line_buf, s.cap, b);
                proxy_decide(
                    ProxyView {
                        raw: s.raw + b,
                        buffered: s.buffered + b,
                        line_buf: lb,
                        cap: cap,
                        awaiting: false,
                        ..s
                    },
                )
            },
            EventView::Parsed(parsed) => if s.awaiting {
                proxy_resolve(s, parsed, request)
            } else {
                (s, seq![])
            },
            EventView::TimedOut => proxy_close(
                s,
                LogLabel::OllamaTimeout,
                StreamEnd::TimedOut,
                true,
            ),
            EventView::Failed => proxy_close(
                s,
                LogLabel::OllamaStreamError,
                StreamEnd::Failed,
                true,
            ),
            EventView::Ended => proxy_close(
                s,
                LogLabel::OllamaResponseStream,
                StreamEnd::Completed,
                false,
            ),
        }
    }
}

/// The proxy's handling of one server stream: it holds the stream back while
/// the model's text may still turn out to be a tool call written as JSON, and
/// then either replaces the stream with a proper tool call or sends it on.
pub struct ProxyStream {
    raw: Vec<u8>,
    buffered_sse: Vec<u8>,
    line_buf: Vec<u8>,
    content: String,
    first_chunk: Option<Json>,
    usage_chunk: Option<Json>,
    maybe_raw_json_tool_call: bool,
    passthrough: bool,
    awaiting: bool,
    call: Option<(String, String)>,
    end: Option<StreamEnd>,
}

impl View for ProxyStream {
    type V = ProxyView;

    closed spec fn view(&self) -> ProxyView {
        ProxyView {
            raw: self.raw@,
            buffered: self.buffered_sse@,
            line_buf: self.line_buf@,
            cap: SseCapture {
                content: self.content@,
                first: opt_json_view(self.first_chunk),
                usage: opt_json_view(self.usage_chunk),
            },
            maybe_tool_call: self.maybe_raw_json_tool_call,
            passthrough: self.passthrough,
            awaiting: self.awaiting,
            call: match self.call {
                Some((name, arguments)) => Some((name@, arguments@)),
                None => None,
            },
            end: self.end,
        }
    }
}

impl ProxyStream {
    /// A stream before anything arrived.
    pub fn new() -> (s: ProxyStream)
        ensures
            s@ == proxy_initial(),
    {
        let s = ProxyStream {
            raw: Vec::new(),
            buffered_sse: Vec::new(),
            line_buf: Vec::new(),
            content: String::new(),
            first_chunk: None,
            usage_chunk: None,
            maybe_raw_json_tool_call: false,
            passthrough: false,
            awaiting: false,
            call: None,
            end: None,
        };
        assert(s@ =~= proxy_initial());
        s
    }

    /// Whether the stream has ended; nothing more is to be sent then.
    pub fn is_finished(&self) -> (b: bool)
        ensures
            b == (self@.end is Some),
    {
        self.end.is_some()
    }

    /// How the stream ended, once it has.
    pub fn end(&self) -> (e: Option<StreamEnd>)
        ensures
            e == self@.end,
    {
        self.end
    }

    fn pass(&mut self) -> (actions: Vec<StreamAction>)
        ensures
            (final(self)@, actions_view(actions@)) == proxy_pass(old(self)@),
    {
        self.passthrough = true;
        let held = take_bytes(&mut self.buffered_sse);
        assert(self.buffered_sse@ =~= Seq::<u8>::empty());
        let actions = vec![StreamAction::Send(held)];
        assert(actions_view(actions@) =~= proxy_pass(old(self)@).1);
        actions
    }

    fn close(&mut self, label: LogLabel, end: StreamEnd, with_done: bool) -> (actions: Vec<
        StreamAction,
    >)
        ensures
            (final(self)@, actions_view(actions@)) == proxy_close(old(self)@, label, end, with_done),
    {
        let mut actions: Vec<StreamAction> = Vec::new();
        actions.push(StreamAction::Log(label, vstd::slice::slice_to_vec(self.raw.as_slice())));
        let held = take_bytes(&mut self.buffered_sse);
        assert(self.buffered_sse@ =~= Seq::<u8>::empty());
        if held.len() > 0 {
            actions.push(StreamAction::Send(held));
        }
        if with_done {
            let done = "data: [DONE]\n\n".as_bytes_vec();
            actions.push(StreamAction::Send(done));
        }
        self.end = Some(end);
        assert(actions_view(actions@) =~= proxy_close(old(self)@, label, end, with_done).1);
        actions
    }

    fn no_call(&mut self, cs: &Vec<char>, t: usize) -> (actions: Vec<StreamAction>)
        requires
            cs@ == old(self)@.cap.content,
            t <= cs@.len(),
            cs@.subrange(t as int, cs@.len() as int) == trim_start(cs@),
        ensures
            (final(self)@, actions_view(actions@)) == proxy_no_call(old(self)@),
    {
        let n = cs.len();
        assert(cs@.subrange(0, n as int) =~= cs@);
        if fence_range(cs.as_slice(), t, n).is_some() || utf8_len_exceeds(
            cs.as_slice(),
            0,
            n,
            RAW_TOOL_CALL_PASSTHROUGH_THRESHOLD,
        ) {
            self.pass()
        } else {
            let actions: Vec<StreamAction> = Vec::new();
            assert(actions_view(actions@) =~= Seq::<ActionView>::empty());
            actions
        }
    }

    fn examine(&mut self, cs: &Vec<char>, t: usize) -> (actions: Vec<StreamAction>)
        requires
            cs@ == old(self)@.cap.content,
            t <= cs@.len(),
            cs@.subrange(t as int, cs@.len() as int) == trim_start(cs@),
        ensures
            (final(self)@, actions_view(actions@)) == proxy_examine(old(self)@),
    {
        match raw_tool_call_text(self.content.as_str()) {
            Some(text) => {
                let text = String::from_str(text);
                self.awaiting = true;
                let actions = vec![StreamAction::Parse(text)];
                assert(actions_view(actions@) =~= proxy_examine(old(self)@).1);
                actions
            },
            None => self.no_call(cs, t),
        }
    }

    fn resolve(&mut self, parsed: Option<RawToolCall>, request: &ChatRequest) -> (actions: Vec<
        StreamAction,
    >)
        ensures
            (final(self)@, actions_view(actions@)) == proxy_resolve(
                old(self)@,
                opt_raw_view(parsed),
                *request,
            ),
    {
        self.awaiting = false;
        match try_normalize_raw_tool_call(&parsed, request) {
            Some(call) => {
                let name = call.function.name.clone();
                let arguments = call.function.arguments.clone();
                let first = match &self.first_chunk {
                    Some(f) => Some(f.deep_clone()),
                    None => None,
                };
                let usage = match &self.usage_chunk {
                    Some(u) => Some(u.deep_clone()),
                    None => None,
                };
                let sse = build_tool_call_sse(request.model.as_str(), first, usage, call);
                let bytes = sse.as_str().as_bytes_vec();
                let logged = vstd::slice::slice_to_vec(bytes.as_slice());
                let raw = vstd::slice::slice_to_vec(self.raw.as_slice());
                self.end = Some(StreamEnd::ToolCall);
                self.call = Some((name, arguments));
                let actions = vec![
                    StreamAction::Log(LogLabel::ProxyNormalizedToolCall, logged),
                    StreamAction::Log(LogLabel::OllamaResponseStream, raw),
                    StreamAction::Send(bytes),
                ];
                assert(actions_view(actions@) =~= proxy_resolve(
                    old(self)@,
                    opt_raw_view(parsed),
                    *request,
                ).1);
                actions
            },
            None => {
                let cs = chars_of(self.content.as_str());
                let n = cs.len();
                let t = skip_white_space(cs.as_slice(), 0, n);
                assert(cs@.subrange(0, n as int) =~= cs@);
                self.no_call(&cs, t)
            },
        }
    }

    /// Takes the next event, of the server's stream or the answer to a
    /// `Parse`, and returns what to do, in order: bytes to send to the client,
    /// bytes to log, or a text to deserialise as a tool call, whose outcome is
    /// to be handed back as the next event.
    pub fn step(&mut self, event: StreamEvent, request: &ChatRequest) -> (actions: Vec<
        StreamAction,
    >)
        ensures
            (final(self)@, actions_view(actions@)) == proxy_step(old(self)@, event@, *request),
    {
        if self.end.is_some() {
            let actions: Vec<StreamAction> = Vec::new();
            assert(actions_view(actions@) =~= Seq::<ActionView>::empty());
            return actions;
        }
        match event {
            StreamEvent::TimedOut => self.close(LogLabel::OllamaTimeout, StreamEnd::TimedOut, true),
            StreamEvent::Failed => self.close(LogLabel::OllamaStreamError, StreamEnd::Failed, true),
            StreamEvent::Ended => self.close(
                LogLabel::OllamaResponseStream,
                StreamEnd::Completed,
                false,
            ),
            StreamEvent::Chunk(bytes) => {
                append_bytes(&mut self.raw, bytes.as_slice());
                if self.passthrough {
                    let actions = vec![StreamAction::Send(bytes)];
                    assert(actions_view(actions@) =~= proxy_step(old(self)@, event@, *request).1);
                    return actions;
                }
                append_bytes(&mut self.buffered_sse, bytes.as_slice());
                self.awaiting = false;
                absorb_bytes(
                    &mut self.line_buf,
                    &mut self.content,
                    &mut self.first_chunk,
                    &mut self.usage_chunk,
                    bytes.as_slice(),
                );
                let cs = chars_of(self.content.as_str());
                let n = cs.len();
                let t = skip_white_space(cs.as_slice(), 0, n);
                assert(cs@.subrange(0, n as int) =~= cs@);
                assert(TOOL_CALL_BEGIN_JSON@ == fence_json()) by {
                    assert(TOOL_CALL_BEGIN_JSON@ =~= fence_json());
                }
                assert(JSON_BEGIN_FORMAT@ == json_begin()) by {
                    assert(JSON_BEGIN_FORMAT@ =~= json_begin());
                }
                assert(TOOL_CALL_CONTAINER@ == fence_begin()) by {
                    assert(TOOL_CALL_CONTAINER@ =~= fence_begin());
                }
                if !self.maybe_raw_json_tool_call {
                    if starts_with_at(cs.as_slice(), t, n, TOOL_CALL_BEGIN_JSON.as_slice()) || starts_with_at(
                        cs.as_slice(),
                        t,
                        n,
                        JSON_BEGIN_FORMAT.as_slice(),
                    ) {
                        self.maybe_raw_json_tool_call = true;
                    } else if starts_with_at(cs.as_slice(), t, n, TOOL_CALL_CONTAINER.as_slice()) {
                        if !is_start_of(cs.as_slice(), t, n, TOOL_CALL_BEGIN_JSON.as_slice()) {
                            return self.pass();
                        }
                        let actions: Vec<StreamAction> = Vec::new();
                        assert(actions_view(actions@) =~= Seq::<ActionView>::empty());
                        return actions;
                    } else if t < n {
                        return self.pass();
                    } else {
                        let actions: Vec<StreamAction> = Vec::new();
                        assert(actions_view(actions@) =~= Seq::<ActionView>::empty());
                        return actions;
                    }
                }
                self.examine(&cs, t)
            },
            StreamEvent::Parsed(parsed) => {
                if self.awaiting {
                    self.resolve(parsed, request)
                } else {
                    let actions: Vec<StreamAction> = Vec::new();
                    assert(actions_view(actions@) =~= Seq::<ActionView>::empty());
                    actions
                }
            },
        }
    }
}

/// The proxy over a sequence of events: the state it reaches and every
/// action it asks for, in order.
pub open spec fn proxy_run(s: ProxyView, events: Seq<EventView>, request: ChatRequest) -> (
    ProxyView,
    Seq<ActionView>,
)
    decreases events.len(),
{
    if events.len() == 0 {
        (s, seq![])
    } else {
        let (t, a) = proxy_run(s, events.drop_last(), request);
        let (u, b) = proxy_step(t, events.last(), request);
        (u, a + b)
    }
}

/// What the client has been sent, `out`, fits the state of the stream: while
/// undecided nothing is sent and everything is held back; once passing through
/// everything received has been sent; a completed stream was sent exactly as
/// received, a dead one with `[DONE]` after it; a recognised tool call was sent
/// in place of everything else.
pub open spec fn proxy_delivered(s: ProxyView, out: Seq<u8>, request: ChatRequest) -> bool {
    match s.end {
        None => {
            &&& out + s.buffered == s.raw
            &&& s.passthrough ==> s.buffered.len() == 0
            &&& !s.passthrough ==> out.len() == 0
            &&& s.awaiting ==> !s.passthrough
        },
        Some(StreamEnd::Completed) => out == s.raw,
        Some(StreamEnd::TimedOut) => out == s.raw + done_event(),
        Some(StreamEnd::Failed) => out == s.raw + done_event(),
        Some(StreamEnd::ToolCall) => match s.call {
            Some((name, args)) => out == tool_call_bytes(s.cap, request, name, args) && tool_allowed(
                request,
                name,
            ),
            None => false,
        },
    }
}

proof fn lemma_sent_one(a: ActionView)
    ensures
        sent(seq![a]) == match a {
            ActionView::Send(b) => b,
            _ => seq![],
        },
{
    lemma_sent_push(seq![], a);
    assert(Seq::<ActionView>::empty().push(a) =~= seq![a]);
}

proof fn lemma_pass_delivers(s: ProxyView, out: Seq<u8>, request: ChatRequest)
    requires
        s.end is None,
        !s.awaiting,
        out + s.buffered == s.raw,
    ensures
        proxy_delivered(proxy_pass(s).0, out + sent(proxy_pass(s).1), request),
{
    lemma_sent_one(ActionView::Send(s.buffered));
    assert(out + sent(proxy_pass(s).1) + seq![] =~= s.raw);
}

proof fn lemma_close_delivers(
    s: ProxyView,
    out: Seq<u8>,
    label: LogLabel,
    end: StreamEnd,
    with_done: bool,
    request: ChatRequest,
)
    requires
        s.end is None,
        out + s.buffered == s.raw,
        end != StreamEnd::ToolCall,
        with_done == (end != StreamEnd::Completed),
    ensures
        proxy_delivered(
            proxy_close(s, label, end, with_done).0,
            out + sent(proxy_close(s, label, end, with_done).1),
            request,
        ),
{
    let logs = seq![ActionView::Log(label, s.raw)];
    let held: Seq<ActionView> = if s.buffered.len() > 0 {
        seq![ActionView::Send(s.buffered)]
    } else {
        seq![]
    };
    let done: Seq<ActionView> = if with_done {
        seq![ActionView::Send(done_event())]
    } else {
        seq![]
    };
    lemma_sent_append(logs + held, done);
    lemma_sent_append(logs, held);
    lemma_sent_one(ActionView::Log(label, s.raw));
    lemma_sent_one(ActionView::Send(s.buffered));
    lemma_sent_one(ActionView::Send(done_event()));
    assert(sent(held) == s.buffered) by {
        if s.buffered.len() == 0 {
            assert(s.buffered =~= Seq::<u8>::empty());
        }
    }
    if with_done {
        assert(out + sent(proxy_close(s, label, end, with_done).1) =~= s.raw + done_event());
    } else {
        assert(out + sent(proxy_close(s, label, end, with_done).1) =~= s.raw);
    }
}

proof fn lemma_no_call_delivers(s: ProxyView, out: Seq<u8>, request: ChatRequest)
    requires
        s.end is None,
        !s.passthrough,
        !s.awaiting,
        out.len() == 0,
        s.buffered == s.raw,
    ensures
        proxy_delivered(proxy_no_call(s).0, out + sent(proxy_no_call(s).1), request),
{
    assert(out + s.buffered =~= s.raw);
    if fence_contents(trim_start(s.cap.content)) is Some || utf8_len(s.cap.content)
        > RAW_TOOL_CALL_PASSTHROUGH_THRESHOLD {
        lemma_pass_delivers(s, out, request);
    } else {
        assert(out + sent(seq![]) =~= out);
    }
}

proof fn lemma_examine_delivers(s: ProxyView, out: Seq<u8>, request: ChatRequest)
    requires
        s.end is None,
        !s.passthrough,
        !s.awaiting,
        out.len() == 0,
        s.buffered == s.raw,
    ensures
        proxy_delivered(proxy_examine(s).0, out + sent(proxy_examine(s).1), request),
{
    assert(out + s.buffered =~= s.raw);
    match tool_call_text(s.cap.content) {
        Some(text) => {
            lemma_sent_one(ActionView::Parse(text));
            assert(out + sent(proxy_examine(s).1) =~= out);
        },
        None => lemma_no_call_delivers(s, out, request),
    }
}

proof fn lemma_resolve_delivers(
    s: ProxyView,
    out: Seq<u8>,
    parsed: Option<RawCallView>,
    request: ChatRequest,
)
    requires
        s.end is None,
        !s.passthrough,
        out.len() == 0,
        s.buffered == s.raw,
    ensures
        proxy_delivered(
            proxy_resolve(s, parsed, request).0,
            out + sent(proxy_resolve(s, parsed, request).1),
            request,
        ),
{
    let s1 = ProxyView { awaiting: false, ..s };
    match normalized_call(parsed, request) {
        Some((name, args)) => {
            let bytes = tool_call_bytes(s1.cap, request, name, args);
            let acts = proxy_resolve(s, parsed, request).1;
            assert(acts == seq![ActionView::Log(LogLabel::ProxyNormalizedToolCall, bytes)].push(
                ActionView::Log(LogLabel::OllamaResponseStream, s1.raw),
            ).push(ActionView::Send(bytes)));
            lemma_sent_one(ActionView::Log(LogLabel::ProxyNormalizedToolCall, bytes));
            lemma_sent_push(
                seq![ActionView::Log(LogLabel::ProxyNormalizedToolCall, bytes)],
                ActionView::Log(LogLabel::OllamaResponseStream, s1.raw),
            );
            lemma_sent_push(
                seq![ActionView::Log(LogLabel::ProxyNormalizedToolCall, bytes)].push(
                    ActionView::Log(LogLabel::OllamaResponseStream, s1.raw),
                ),
                ActionView::Send(bytes),
            );
            assert(out + sent(acts) =~= bytes);
        },
        None => lemma_no_call_delivers(s1, out, request),
    }
}

/// One step keeps what was sent in line with the state.
proof fn lemma_step_delivers(s: ProxyView, out: Seq<u8>, e: EventView, request: ChatRequest)
    requires
        proxy_delivered(s, out, request),
    ensures
        proxy_delivered(proxy_step(s, e, request).0, out + sent(proxy_step(s, e, request).1), request),
{
    if s.end is Some {
        assert(out + sent(seq![]) =~= out);
        return ;
    }
    match e {
        EventView::Chunk(b) => {
            if s.passthrough {
                lemma_sent_one(ActionView::Send(b));
                assert(out + sent(proxy_step(s, e, request).1) + seq![] =~= s.raw + b);
            } else {
                let (lb, cap) = absorb(s.line_buf, s.cap, b);
                let s1 = ProxyView {
                    raw: s.raw + b,
                    buffered: s.buffered + b,
                    line_buf: lb,
                    cap: cap,
                    awaiting: false,
                    ..s
                };
                assert(out + s.buffered =~= s.buffered);
                assert(s1.buffered == s1.raw);
                assert(out + s1.buffered =~= s1.raw);
                let trimmed = trim_start(s1.cap.content);
                if s1.maybe_tool_call {
                    lemma_examine_delivers(s1, out, request);
                } else if fence_json().is_prefix_of(trimmed) || json_begin().is_prefix_of(trimmed) {
                    lemma_examine_delivers(ProxyView { maybe_tool_call: true, ..s1 }, out, request);
                } else if fence_begin().is_prefix_of(trimmed) {
                    if !trimmed.is_prefix_of(fence_json()) {
                        lemma_pass_delivers(s1, out, request);
                    } else {
                        assert(out + sent(seq![]) =~= out);
                    }
                } else if trimmed.len() > 0 {
                    lemma_pass_delivers(s1, out, request);
                } else {
                    assert(out + sent(seq![]) =~= out);
                }
            }
        },
        EventView::Parsed(parsed) => {
            if s.awaiting {
                lemma_resolve_delivers(s, out, parsed, request);
            } else {
                assert(out + sent(seq![]) =~= out);
            }
        },
        EventView::TimedOut => {
            lemma_close_delivers(s, out, LogLabel::OllamaTimeout, StreamEnd::TimedOut, true, request);
        },
        EventView::Failed => {
            lemma_close_delivers(s, out, LogLabel::OllamaStreamError, StreamEnd::Failed, true, request);
        },
        EventView::Ended => {
            lemma_close_delivers(
                s,
                out,
                LogLabel::OllamaResponseStream,
                StreamEnd::Completed,
                false,
                request,
            );
        },
    }
}

/// Law of the proxy, for every sequence of server events: the client receives
/// the server's bytes exactly, in order, and nothing else: while the proxy is
/// undecided it holds them back and has sent nothing; once it passes the
/// stream through it has sent all of them; a completed stream has been sent
/// exactly as received, and a stream that timed out or failed is followed by
/// `[DONE]`; or, in place of all of it, the client receives the events of the
/// one tool call recognised in the model's text. What the proxy received is
/// the server's bytes up to the end of the stream: all of them while it is open.
pub proof fn lemma_proxy_forwards_exactly(events: Seq<EventView>, request: ChatRequest)
    ensures
        proxy_delivered(
            proxy_run(proxy_initial(), events, request).0,
            sent(proxy_run(proxy_initial(), events, request).1),
            request,
        ),
        proxy_run(proxy_initial(), events, request).0.raw.is_prefix_of(chunk_bytes(events)),
        proxy_run(proxy_initial(), events, request).0.end is None ==> proxy_run(
            proxy_initial(),
            events,
            request,
        ).0.raw == chunk_bytes(events),
    decreases events.len(),
{
    if events.len() == 0 {
        assert(proxy_initial().raw =~= chunk_bytes(events));
        assert(sent(seq![]) + proxy_initial().buffered =~= proxy_initial().raw);
    } else {
        let prev = events.drop_last();
        let e = events.last();
        lemma_proxy_forwards_exactly(prev, request);
        let (t, a) = proxy_run(proxy_initial(), prev, request);
        let (u, b) = proxy_step(t, e, request);
        lemma_step_delivers(t, sent(a), e, request);
        lemma_sent_append(a, b);
        assert(prev.push(e) =~= events);
        lemma_chunk_bytes_push(prev, e);
        if t.end is None {
            match e {
                EventView::Chunk(bytes) => {
                    assert(u.raw =~= chunk_bytes(events));
                },
                _ => {
                    assert(u.raw =~= t.raw);
                    assert(chunk_bytes(events) =~= chunk_bytes(prev));
                },
            }
        } else {
            assert(u == t);
        }
    }
}

/// What closing a stream that is passed through does: log the server's bytes
/// `raw` under the event's label and, after a timeout or a failure, send the
/// closing `[DONE]` event. Nothing is held back, so nothing else is sent.
pub open spec fn passthrough_close(e: EventView, raw: Seq<u8>) -> Seq<ActionView> {
    match e {
        EventView::TimedOut => seq![
            ActionView::Log(LogLabel::OllamaTimeout, raw),
            ActionView::Send(done_event()),
        ],
        EventView::Failed => seq![
            ActionView::Log(LogLabel::OllamaStreamError, raw),
            ActionView::Send(done_event()),
        ],
        EventView::Ended => seq![ActionView::Log(LogLabel::OllamaResponseStream, raw)],
        _ => seq![],
    }
}

/// Running two blocks of events one after the other is running them as one.
proof fn lemma_proxy_run_append(
    s: ProxyView,
    pre: Seq<EventView>,
    post: Seq<EventView>,
    request: ChatRequest,
)
    ensures
        proxy_run(s, pre + post, request) == (
            proxy_run(proxy_run(s, pre, request).0, post, request).0,
            proxy_run(s, pre, request).1 + proxy_run(proxy_run(s, pre, request).0, post, request).1,
        ),
    decreases post.len(),
{
    if post.len() == 0 {
        assert(pre + post =~= pre);
        assert(proxy_run(s, pre, request).1 + seq![] =~= proxy_run(s, pre, request).1);
    } else {
        lemma_proxy_run_append(s, pre, post.drop_last(), request);
        assert((pre + post).drop_last() =~= pre + post.drop_last());
        assert((pre + post).last() == post.last());
        let t = proxy_run(s, pre, request);
        let m = proxy_run(t.0, post.drop_last(), request);
        let (u, b) = proxy_step(m.0, post.last(), request);
        assert(t.1 + m.1 + b =~= t.1 + (m.1 + b));
    }
}

/// From a state that passes the stream through, with nothing held back and
/// no answer awaited: it stays so, never ends with a tool call, sends each
/// chunk as it came, and on closing sends nothing held back.
proof fn lemma_passthrough_run(s: ProxyView, events: Seq<EventView>, request: ChatRequest)
    requires
        s.passthrough,
        !s.awaiting,
        s.end is None,
        s.buffered.len() == 0,
    ensures
        proxy_run(s, events, request).0.passthrough,
        !proxy_run(s, events, request).0.awaiting,
        proxy_run(s, events, request).0.buffered.len() == 0,
        proxy_run(s, events, request).0.end != Some(StreamEnd::ToolCall),
        stays_open(events) ==> {
            &&& proxy_run(s, events, request).1 == chunk_sends(events)
            &&& proxy_run(s, events, request).0.end is None
            &&& proxy_run(s, events, request).0.raw == s.raw + chunk_bytes(events)
        },
        events.len() > 0 && stays_open(events.drop_last()) && is_close(events.last())
            ==> proxy_run(s, events, request).1 == chunk_sends(events.drop_last())
            + passthrough_close(events.last(), s.raw + chunk_bytes(events.drop_last())),
    decreases events.len(),
{
    if events.len() == 0 {
        assert(s.raw + chunk_bytes(events) =~= s.raw);
    } else {
        let prev = events.drop_last();
        let e = events.last();
        lemma_passthrough_run(s, prev, request);
        let (t, a) = proxy_run(s, prev, request);
        if stays_open(events) {
            assert forall|i: int| 0 <= i < prev.len() implies !is_close(#[trigger] prev[i]) by {
                assert(prev[i] == events[i]);
            }
            assert(!is_close(events[events.len() - 1]));
            assert(s.raw + chunk_bytes(events) =~= (s.raw + chunk_bytes(prev)) + match e {
                EventView::Chunk(b) => b,
                _ => seq![],
            });
            assert(a + proxy_step(t, e, request).1 =~= chunk_sends(events));
        }
        if stays_open(prev) && is_close(e) {
            let (u, b) = proxy_step(t, e, request);
            assert(b =~= passthrough_close(e, t.raw));
            assert(chunk_sends(events) =~= chunk_sends(prev));
        }
    }
}

/// Law of the proxy: once it passes a stream through, it does so for good.
/// Whatever events follow, it stays in passthrough with nothing held back and
/// never answers with a tool call; while the stream stays open, it sends each
/// chunk as it came, on its own, after what it had sent, and nothing else;
/// and when the stream then closes it sends nothing held back, only the
/// closing `[DONE]` event after a timeout or a failure.
pub proof fn lemma_passthrough_is_final(
    pre: Seq<EventView>,
    post: Seq<EventView>,
    request: ChatRequest,
)
    requires
        proxy_run(proxy_initial(), pre, request).0.passthrough,
        proxy_run(proxy_initial(), pre, request).0.end is None,
    ensures
        proxy_run(proxy_initial(), pre + post, request).0.passthrough,
        proxy_run(proxy_initial(), pre + post, request).0.buffered.len() == 0,
        proxy_run(proxy_initial(), pre + post, request).0.end != Some(StreamEnd::ToolCall),
        stays_open(post) ==> proxy_run(proxy_initial(), pre + post, request).1 == proxy_run(
            proxy_initial(),
            pre,
            request,
        ).1 + chunk_sends(post),
        post.len() > 0 && stays_open(post.drop_last()) && is_close(post.last()) ==> proxy_run(
            proxy_initial(),
            pre + post,
            request,
        ).1 == proxy_run(proxy_initial(), pre, request).1 + chunk_sends(post.drop_last())
            + passthrough_close(post.last(), chunk_bytes(pre + post.drop_last())),
{
    let t = proxy_run(proxy_initial(), pre, request);
    lemma_proxy_forwards_exactly(pre, request);
    lemma_proxy_run_append(proxy_initial(), pre, post, request);
    lemma_passthrough_run(t.0, post, request);
    if post.len() > 0 {
        lemma_chunk_bytes_append(pre, post.drop_last());
        let r = proxy_run(t.0, post, request).1;
        assert(t.1 + (chunk_sends(post.drop_last()) + passthrough_close(
            post.last(),
            t.0.raw + chunk_bytes(post.drop_last()),
        )) =~= t.1 + chunk_sends(post.drop_last()) + passthrough_close(
            post.last(),
            chunk_bytes(pre + post.drop_last()),
        ));
    }
}

/// Law of the proxy: text that opens with a ```json fence is not let through
/// before the fence has closed. From any open state that is not passing the
/// stream through, a chunk after which the model's text, white space at its
/// start aside, begins with ```json, is not yet a closed fence, and is within
/// the threshold sends nothing, keeps the stream open and does not switch to
/// passing it through.
pub proof fn lemma_json_fence_opening_is_held(s: ProxyView, b: Seq<u8>, request: ChatRequest)
    requires
        s.end is None,
        !s.passthrough,
        fence_json().is_prefix_of(trim_start(absorb(s.line_buf, s.cap, b).1.content)),
        fence_contents(trim_start(absorb(s.line_buf, s.cap, b).1.content)) is None,
        utf8_len(absorb(s.line_buf, s.cap, b).1.content) <= RAW_TOOL_CALL_PASSTHROUGH_THRESHOLD,
    ensures
        !proxy_step(s, EventView::Chunk(b), request).0.passthrough,
        proxy_step(s, EventView::Chunk(b), request).0.end is None,
        sent(proxy_step(s, EventView::Chunk(b), request).1) == Seq::<u8>::empty(),
{
    let c = absorb(s.line_buf, s.cap, b).1.content;
    lemma_sent_one(ActionView::Send(seq![]));
    assert(sent(Seq::<ActionView>::empty()) == Seq::<u8>::empty());
    if let Some(t) = tool_call_text(c) {
        lemma_sent_one(ActionView::Parse(t));
    }
}

/// Law of the proxy: a tool call written inside a ```json fence is asked for.
/// From the start, a chunk after which the model's text is a ```json fence
/// around `body` (each fence mark on a line of its own, `body` left as it is
/// by trimming) sends nothing, and hands out exactly `body` to be deserialised
/// as a tool call, waiting for the answer.
pub proof fn lemma_fenced_call_is_asked_for(b: Seq<u8>, body: Seq<char>, request: ChatRequest)
    requires
        trim(body) == body,
        absorb(proxy_initial().line_buf, proxy_initial().cap, b).1.content == fence_json()
            + fence_inside(body) + fence(),
    ensures
        proxy_step(proxy_initial(), EventView::Chunk(b), request).1 == seq![ActionView::Parse(body)],
        proxy_step(proxy_initial(), EventView::Chunk(b), request).0.awaiting,
        !proxy_step(proxy_initial(), EventView::Chunk(b), request).0.passthrough,
        proxy_step(proxy_initial(), EventView::Chunk(b), request).0.end is None,
{
    let c = fence_json() + fence_inside(body) + fence();
    lemma_unfence_undoes_fence(body);
    assert(c[0] == '`');
    assert(!is_white_space(c[0]));
    assert(trim_start(c) == c);
    assert(c.subrange(0, 7) =~= fence_json());
}

/// `c` with ASCII upper case turned into lower case.
pub open spec fn lower_char(c: char) -> char {
    if 'A' <= c && c <= 'Z' {
        ((c as u32) + 32) as char
    } else {
        c
    }
}

/// `str::to_ascii_lowercase`.
pub open spec fn ascii_lowercase(s: Seq<char>) -> Seq<char> {
    Seq::new(s.len(), |i: int| lower_char(s[i]))
}

/// A character allowed in an HTTP header name (a token character).
pub open spec fn is_token_char(c: char) -> bool {
    ||| ('a' <= c && c <= 'z')
    ||| ('A' <= c && c <= 'Z')
    ||| ('0' <= c && c <= '9')
    ||| c == '!' || c == '#' || c == '$' || c == '%' || c == '&' || c == '\''
    ||| c == '*' || c == '+' || c == '-' || c == '.' || c == '^' || c == '_'
    ||| c == '`' || c == '|' || c == '~'
}

/// What `HeaderName::from_bytes` makes of the bytes of `name`: a name of 1 to
/// 65535 token characters, in lower case; nothing for anything else.
pub open spec fn header_name(name: Seq<char>) -> Option<Seq<char>> {
    if 0 < name.len() <= 65535 && forall|i: int| 0 <= i < name.len() ==> is_token_char(#[trigger] name[i]) {
        Some(ascii_lowercase(name))
    } else {
        None
    }
}

/// What `HeaderValue::from_bytes` accepts: no control byte but tab, no DEL.
pub open spec fn header_value_ok(value: Seq<u8>) -> bool {
    forall|i: int| 0 <= i < value.len() ==> ((#[trigger] value[i] >= 32 && value[i] != 127) || value[i] == 9)
}

/// Headers that are not forwarded: they describe the client's own connection.
pub open spec fn is_dropped_header(name: Seq<char>) -> bool {
    let lower = ascii_lowercase(name);
    lower == "host"@ || lower == "content-length"@ || lower == "connection"@ || lower
        == "accept-encoding"@
}

/// Where `name` first stands in `headers`.
pub open spec fn header_position(headers: Seq<(Seq<char>, Seq<u8>)>, name: Seq<char>) -> Option<int>
    decreases headers.len(),
{
    if headers.len() == 0 {
        None
    } else if headers.last().0 == name {
        match header_position(headers.drop_last(), name) {
            Some(i) => Some(i),
            None => Some(headers.len() - 1),
        }
    } else {
        header_position(headers.drop_last(), name)
    }
}

/// `HeaderMap::insert`: a present name gets the new value in its place, a new
/// name goes last.
pub open spec fn header_insert(headers: Seq<(Seq<char>, Seq<u8>)>, name: Seq<char>, value: Seq<u8>) -> Seq<
    (Seq<char>, Seq<u8>),
> {
    match header_position(headers, name) {
        Some(i) => headers.update(i, (name, value)),
        None => headers.push((name, value)),
    }
}

/// The headers forwarded to the server, in the order in which they are
/// inserted: every header but the connection ones, whose name and value are
/// valid, under its normalised name; a later value of a name replaces an earlier one.
pub open spec fn forwarded_headers(headers: Seq<(Seq<char>, Seq<u8>)>) -> Seq<(Seq<char>, Seq<u8>)>
    decreases headers.len(),
{
    if headers.len() == 0 {
        seq![]
    } else {
        let acc = forwarded_headers(headers.drop_last());
        let (name, value) = headers.last();
        if is_dropped_header(name) {
            acc
        } else {
            match header_name(name) {
                Some(normal) => if header_value_ok(value) {
                    header_insert(acc, normal, value)
                } else {
                    acc
                },
                None => acc,
            }
        }
    }
}

/// The values of a list of headers.
pub open spec fn headers_view(headers: Seq<(String, Vec<u8>)>) -> Seq<(Seq<char>, Seq<u8>)> {
    Seq::new(headers.len(), |i: int| (headers[i].0@, headers[i].1@))
}

/// `HeaderName::from_bytes` on the bytes of `name`, giving the name's text.
/// Trusted: the result is what `header_name` states, as the function's source
/// (its table of token characters and its length limit) shows.
#[verifier::external_body]
fn parse_header_name(name: &str) -> (r: Option<String>)
    ensures
        match r {
            Some(n) => header_name(name@) == Some(n@),
            None => header_name(name@) is None,
        },
{
    reqwest::header::HeaderName::from_bytes(name.as_bytes()).ok().map(|n| n.as_str().to_string())
}

/// `HeaderValue::from_bytes`, whether it accepts the bytes. Trusted: it does
/// exactly where `header_value_ok` holds, as the function's source shows.
#[verifier::external_body]
fn header_value_accepted(value: &[u8]) -> (b: bool)
    ensures
        b == header_value_ok(value@),
{
    reqwest::header::HeaderValue::from_bytes(value).is_ok()
}

/// `c` in ASCII lower case.
fn ascii_lower(c: char) -> (r: char)
    ensures
        r == lower_char(c),
{
    if 'A' <= c && c <= 'Z' {
        ((c as u8) + 32) as char
    } else {
        c
    }
}

/// Whether the ASCII lower case of `cs` is `pat`.
fn lowercase_is(cs: &[char], pat: &str) -> (b: bool)
    ensures
        b == (ascii_lowercase(cs@) == pat@),
{
    let p = chars_of(pat);
    if cs.len() != p.len() {
        assert(ascii_lowercase(cs@).len() != pat@.len());
        return false;
    }
    let mut i: usize = 0;
    while i < cs.len()
        invariant
            cs@.len() == p@.len(),
            p@ == pat@,
            i <= cs@.len(),
            forall|m: int| 0 <= m < i ==> lower_char(cs@[m]) == p@[m],
        decreases cs.len() - i,
    {
        if ascii_lower(cs[i]) != p[i] {
            assert(ascii_lowercase(cs@)[i as int] != pat@[i as int]);
            return false;
        }
        i = i + 1;
    }
    assert(ascii_lowercase(cs@) =~= pat@);
    true
}

/// Whether the header `name` is one of those that are not forwarded.
fn dropped_header(name: &str) -> (b: bool)
    ensures
        b == is_dropped_header(name@),
{
    let cs = chars_of(name);
    lowercase_is(cs.as_slice(), "host") || lowercase_is(cs.as_slice(), "content-length")
        || lowercase_is(cs.as_slice(), "connection") || lowercase_is(
        cs.as_slice(),
        "accept-encoding",
    )
}

/// Inserts a header the way `HeaderMap::insert` does.
fn insert_header(out: &mut Vec<(String, Vec<u8>)>, name: String, value: Vec<u8>)
    ensures
        headers_view(final(out)@) == header_insert(headers_view(old(out)@), name@, value@),
{
    let ghost hs = headers_view(old(out)@);
    let mut i: usize = 0;
    while i < out.len()
        invariant
            out@ == old(out)@,
            hs == headers_view(out@),
            i <= out@.len(),
            forall|m: int| 0 <= m < i ==> out@[m].0@ != name@,
        decreases out.len() - i,
    {
        if out[i].0 == name {
            proof {
                lemma_header_position_first(hs, name@, i as int);
            }
            out.set(i, (name, value));
            assert(headers_view(out@) =~= hs.update(i as int, (name@, value@)));
            return ;
        }
        i = i + 1;
    }
    proof {
        lemma_header_position_absent(hs, name@);
    }
    out.push((name, value));
    assert(headers_view(out@) =~= hs.push((name@, value@)));
}

proof fn lemma_header_position_first(hs: Seq<(Seq<char>, Seq<u8>)>, name: Seq<char>, i: int)
    requires
        0 <= i < hs.len(),
        hs[i].0 == name,
        forall|m: int| 0 <= m < i ==> hs[m].0 != name,
    ensures
        header_position(hs, name) == Some(i),
    decreases hs.len(),
{
    if hs.len() - 1 > i {
        lemma_header_position_first(hs.drop_last(), name, i);
    } else {
        lemma_header_position_absent(hs.drop_last(), name);
    }
}

proof fn lemma_header_position_absent(hs: Seq<(Seq<char>, Seq<u8>)>, name: Seq<char>)
    requires
        forall|m: int| 0 <= m < hs.len() ==> hs[m].0 != name,
    ensures
        header_position(hs, name) is None,
    decreases hs.len(),
{
    if hs.len() > 0 {
        lemma_header_position_absent(hs.drop_last(), name);
    }
}

/// The request headers to forward to the server: each header of the client's
/// request in order, left out where it concerns the client's connection
/// (`host`, `content-length`, `connection`, `accept-encoding`) or where its
/// name or value is not a valid header, and inserted under its normalised
/// name, a later value replacing an earlier one of the same name.
pub fn filter_headers(headers: &Vec<(String, Vec<u8>)>) -> (forwarded: Vec<(String, Vec<u8>)>)
    ensures
        headers_view(forwarded@) == forwarded_headers(headers_view(headers@)),
{
    let ghost hs = headers_view(headers@);
    let mut out: Vec<(String, Vec<u8>)> = Vec::new();
    let mut i: usize = 0;
    assert(headers_view(out@) =~= forwarded_headers(hs.take(0)));
    while i < headers.len()
        invariant
            hs == headers_view(headers@),
            i <= headers@.len(),
            headers_view(out@) == forwarded_headers(hs.take(i as int)),
        decreases headers.len() - i,
    {
        assert(hs.take(i + 1).drop_last() =~= hs.take(i as int));
        assert(hs.take(i + 1).last() == (headers@[i as int].0@, headers@[i as int].1@));
        let name = headers[i].0.as_str();
        let value = headers[i].1.as_slice();
        if !dropped_header(name) {
            match parse_header_name(name) {
                Some(normal) => {
                    if header_value_accepted(value) {
                        insert_header(&mut out, normal, vstd::slice::slice_to_vec(value));
                    }
                },
                None => {},
            }
        }
        i = i + 1;
    }
    assert(hs.take(headers@.len() as int) =~= hs);
    out
}

/// The address of the server's model list.
pub fn models_url(ollama_base: &str) -> (url: String)
    ensures
        url@ == ollama_base@ + "/v1/models"@,
{
    let mut url = String::from_str(ollama_base);
    url.append("/v1/models");
    url
}

/// The address of the server's chat completions.
pub fn chat_completions_url(ollama_base: &str) -> (url: String)
    ensures
        url@ == ollama_base@ + "/v1/chat/completions"@,
{
    let mut url = String::from_str(ollama_base);
    url.append("/v1/chat/completions");
    url
}

/// Lower case is lower case already.
proof fn lemma_lowercase_idempotent(s: Seq<char>)
    ensures
        ascii_lowercase(ascii_lowercase(s)) == ascii_lowercase(s),
{
    assert forall|i: int| 0 <= i < s.len() implies lower_char(lower_char(s[i])) == lower_char(
        s[i],
    ) by {
        let c = s[i];
        if 'A' <= c && c <= 'Z' {
            let d = ((c as u32) + 32) as char;
            assert(d as u32 == c as u32 + 32);
        }
    }
    assert(ascii_lowercase(ascii_lowercase(s)) =~= ascii_lowercase(s));
}

/// The names in a list of headers are all different.
pub open spec fn names_distinct(headers: Seq<(Seq<char>, Seq<u8>)>) -> bool {
    forall|i: int, j: int|
        0 <= i < j < headers.len() ==> (#[trigger] headers[i]).0 != (#[trigger] headers[j]).0
}

/// Every header of a list is one that may be forwarded.
pub open spec fn all_forwardable(headers: Seq<(Seq<char>, Seq<u8>)>) -> bool {
    forall|i: int|
        0 <= i < headers.len() ==> {
            &&& !is_dropped_header((#[trigger] headers[i]).0)
            &&& header_name(headers[i].0) == Some(headers[i].0)
            &&& header_value_ok(headers[i].1)
        }
}

proof fn lemma_insert_keeps(acc: Seq<(Seq<char>, Seq<u8>)>, name: Seq<char>, value: Seq<u8>)
    requires
        names_distinct(acc),
    ensures
        names_distinct(header_insert(acc, name, value)),
        forall|i: int|
            0 <= i < header_insert(acc, name, value).len() ==> (#[trigger] header_insert(
                acc,
                name,
                value,
            )[i] == (name, value)) || exists|j: int|
                0 <= j < acc.len() && acc[j] == header_insert(acc, name, value)[i],
    decreases acc.len(),
{
    match header_position(acc, name) {
        Some(p) => {
            lemma_position_valid(acc, name);
        },
        None => {
            lemma_position_none(acc, name);
            let r = acc.push((name, value));
            assert forall|i: int| 0 <= i < r.len() implies (#[trigger] r[i] == (name, value)) || exists|
                j: int,
            | 0 <= j < acc.len() && acc[j] == r[i] by {
                if i < acc.len() {
                    assert(acc[i] == r[i]);
                }
            }
        },
    }
    let r = header_insert(acc, name, value);
    assert forall|i: int| 0 <= i < r.len() implies (#[trigger] r[i] == (name, value)) || exists|
        j: int,
    | 0 <= j < acc.len() && acc[j] == r[i] by {
        if r[i] != (name, value) {
            assert(acc[i] == r[i]);
        }
    }
}

/// Law of header forwarding: every header with a valid name and value whose
/// lower-cased name is none of `host`, `content-length`, `connection` and
/// `accept-encoding` is forwarded under its lower-cased name; and where no
/// later valid header has the same lower-cased name, it is forwarded with its
/// own value.
pub proof fn lemma_valid_headers_forwarded(headers: Seq<(Seq<char>, Seq<u8>)>, i: int)
    requires
        0 <= i < headers.len(),
        ascii_lowercase(headers[i].0) != "host"@,
        ascii_lowercase(headers[i].0) != "content-length"@,
        ascii_lowercase(headers[i].0) != "connection"@,
        ascii_lowercase(headers[i].0) != "accept-encoding"@,
        header_name(headers[i].0) is Some,
        header_value_ok(headers[i].1),
    ensures
        exists|j: int|
            0 <= j < forwarded_headers(headers).len() && (#[trigger] forwarded_headers(headers)[j]).0
                == ascii_lowercase(headers[i].0),
        (forall|k: int|
            i < k < headers.len() && header_name((#[trigger] headers[k]).0) is Some
                && header_value_ok(headers[k].1) ==> ascii_lowercase(headers[k].0)
                != ascii_lowercase(headers[i].0)) ==> exists|j: int|
            0 <= j < forwarded_headers(headers).len() && #[trigger] forwarded_headers(headers)[j] == (
                ascii_lowercase(headers[i].0),
                headers[i].1,
            ),
    decreases headers.len(),
{
    let fw = forwarded_headers(headers);
    let prev = headers.drop_last();
    let acc = forwarded_headers(prev);
    let (name, value) = headers.last();
    let lower = ascii_lowercase(headers[i].0);
    if i == headers.len() - 1 {
        assert(!is_dropped_header(name));
        lemma_position_valid(acc, lower);
        match header_position(acc, lower) {
            Some(p) => {
                assert(fw[p] == (lower, value));
            },
            None => {
                assert(fw[acc.len() as int] == (lower, value));
            },
        }
    } else {
        assert(prev[i] == headers[i]);
        lemma_valid_headers_forwarded(prev, i);
        let later_differ = forall|k: int|
            i < k < headers.len() && header_name((#[trigger] headers[k]).0) is Some
                && header_value_ok(headers[k].1) ==> ascii_lowercase(headers[k].0)
                != ascii_lowercase(headers[i].0);
        if later_differ {
            assert forall|k: int|
                i < k < prev.len() && header_name((#[trigger] prev[k]).0) is Some
                    && header_value_ok(prev[k].1) implies ascii_lowercase(prev[k].0)
                != ascii_lowercase(prev[i].0) by {
                assert(prev[k] == headers[k]);
            }
        }
        let j = choose|j: int| 0 <= j < acc.len() && (#[trigger] acc[j]).0 == lower;
        let forwarded_last = !is_dropped_header(name) && header_name(name) is Some
            && header_value_ok(value);
        if forwarded_last {
            let normal = ascii_lowercase(name);
            lemma_position_valid(acc, normal);
            match header_position(acc, normal) {
                Some(p) => {
                    if j == p {
                        assert(fw[p].0 == lower);
                    } else {
                        assert(fw[j] == acc[j]);
                    }
                    if later_differ {
                        assert(header_name(headers[headers.len() - 1].0) is Some);
                        let jj = choose|jj: int|
                            0 <= jj < acc.len() && #[trigger] acc[jj] == (lower, headers[i].1);
                        assert(jj != p);
                        assert(fw[jj] == acc[jj]);
                    }
                },
                None => {
                    assert(fw[j] == acc[j]);
                    if later_differ {
                        let jj = choose|jj: int|
                            0 <= jj < acc.len() && #[trigger] acc[jj] == (lower, headers[i].1);
                        assert(fw[jj] == acc[jj]);
                    }
                },
            }
        } else {
            assert(fw == acc);
            assert(acc[j].0 == lower);
        }
    }
}

proof fn lemma_position_valid(acc: Seq<(Seq<char>, Seq<u8>)>, name: Seq<char>)
    ensures
        header_position(acc, name) matches Some(p) ==> 0 <= p < acc.len() && acc[p].0 == name,
    decreases acc.len(),
{
    if acc.len() > 0 {
        lemma_position_valid(acc.drop_last(), name);
    }
}

proof fn lemma_position_none(acc: Seq<(Seq<char>, Seq<u8>)>, name: Seq<char>)
    ensures
        header_position(acc, name) is None ==> forall|i: int| 0 <= i < acc.len() ==> (#[trigger] acc[i]).0 != name,
    decreases acc.len(),
{
    if acc.len() > 0 {
        lemma_position_none(acc.drop_last(), name);
        if header_position(acc, name) is None {
            assert forall|i: int| 0 <= i < acc.len() implies (#[trigger] acc[i]).0 != name by {
                if i < acc.len() - 1 {
                    assert(acc[i] == acc.drop_last()[i]);
                }
            }
        }
    }
}

/// Law of header forwarding: no header about the client's connection (`host`,
/// `content-length`, `connection`, `accept-encoding`, in any case) is ever
/// forwarded; every forwarded header has a valid, normalised name and a valid
/// value; and no name is forwarded twice.
pub proof fn lemma_forwarded_headers_clean(headers: Seq<(Seq<char>, Seq<u8>)>)
    ensures
        all_forwardable(forwarded_headers(headers)),
        names_distinct(forwarded_headers(headers)),
    decreases headers.len(),
{
    if headers.len() > 0 {
        let acc = forwarded_headers(headers.drop_last());
        lemma_forwarded_headers_clean(headers.drop_last());
        let (name, value) = headers.last();
        if !is_dropped_header(name) {
            if let Some(normal) = header_name(name) {
                if header_value_ok(value) {
                    lemma_insert_keeps(acc, normal, value);
                    lemma_lowercase_idempotent(name);
                    let r = header_insert(acc, normal, value);
                    assert(header_name(normal) == Some(normal)) by {
                        assert forall|i: int| 0 <= i < normal.len() implies is_token_char(
                            #[trigger] normal[i],
                        ) by {
                            let c = name[i];
                            assert(is_token_char(c));
                            if 'A' <= c && c <= 'Z' {
                                let d = ((c as u32) + 32) as char;
                                assert(d as u32 == c as u32 + 32);
                            }
                        }
                    }
                    assert(!is_dropped_header(normal));
                    assert forall|i: int| 0 <= i < r.len() implies {
                        &&& !is_dropped_header((#[trigger] r[i]).0)
                        &&& header_name(r[i].0) == Some(r[i].0)
                        &&& header_value_ok(r[i].1)
                    } by {
                        if r[i] != (normal, value) {
                            let j = choose|j: int| 0 <= j < acc.len() && acc[j] == r[i];
                            assert(acc[j] == r[i]);
                        }
                    }
                }
            }
        }
    }
}

} // verus!
