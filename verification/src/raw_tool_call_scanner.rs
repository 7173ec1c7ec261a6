//! A scanner that passes the server's stream through as soon as the model's
//! text shows no tool call, and holds back only from the first character that
//! may open one (a backquote, `{` or `[`).
use vstd::prelude::*;

use crate::json::{opt_json_view, Json};
use crate::normalizer::{
    fence_contents, fence_json, fence_range, normalized_call, opt_raw_view, raw_tool_call_text,
    tool_allowed, tool_call_text, try_normalize_raw_tool_call, RawCallView, RawToolCall,
    TOOL_CALL_BEGIN_JSON,
};
use crate::openai::ChatRequest;
use crate::proxy::tool_call_bytes;
use crate::sse::{build_tool_call_sse, SseCapture, RAW_TOOL_CALL_PASSTHROUGH_THRESHOLD};
use crate::stream::{
    absorb, absorb_bytes, actions_view, append_bytes, chunk_bytes, done_event, is_close,
    stays_open, lemma_absorb_extends, lemma_chunk_bytes_push, lemma_sent_append, lemma_sent_push, sent, take_bytes, ActionView,
    EventView, LogLabel, StreamAction, StreamEnd, StreamEvent,
};
use crate::text::{chars_of, is_start_of, starts_with_at, utf8_len, utf8_len_exceeds};

verus! {

/// Where the scanner stands in the model's text.
#[derive(Debug, Clone, Copy, PartialEq, Eq, Structural)]
pub enum ScanState {
    /// Looking for a character that may open a tool call.
    Scanning,
    /// A backquote was found; waiting to see whether a ```json fence follows.
    MaybeFence,
    /// The text from the marker on may be a tool call.
    Candidate,
}

/// The state of a scanned stream.
pub struct ScanView {
    /// Every byte received from the server.
    pub raw: Seq<u8>,
    /// Received bytes not yet sent on.
    pub pending: Seq<u8>,
    /// The unfinished last line of the event stream.
    pub line_buf: Seq<u8>,
    /// What the whole lines have told so far.
    pub cap: SseCapture,
    /// How much of the model's text (in characters) has been let through.
    pub released: int,
    /// Where the text that may be a tool call starts.
    pub marker: int,
    pub state: ScanState,
    /// A text was handed out to be deserialised as a tool call; the answer
    /// is awaited.
    pub awaiting: bool,
    /// The tool call sent in place of the rest of the stream, once there is
    /// one: the function's name and its arguments as JSON text.
    pub call: Option<(Seq<char>, Seq<char>)>,
    /// How the stream ended, once it has.
    pub end: Option<StreamEnd>,
}

/// The state before anything arrived.
pub open spec fn scan_initial() -> ScanView {
    ScanView {
        raw: seq![],
        pending: seq![],
        line_buf: seq![],
        cap: SseCapture { content: seq![], first: None, usage: None },
        released: 0,
        marker: 0,
        state: ScanState::Scanning,
        awaiting: false,
        call: None,
        end: None,
    }
}

/// The positions stay within the model's text.
pub open spec fn scan_wf(s: ScanView) -> bool {
    &&& 0 <= s.released <= s.cap.content.len()
    &&& 0 <= s.marker <= s.cap.content.len()
}

/// A character that may open a tool call.
pub open spec fn is_marker(c: char) -> bool {
    c == '`' || c == '{' || c == '['
}

/// The first position at or after `from` that holds a marker.
pub open spec fn first_marker(s: Seq<char>, from: int) -> Option<int>
    decreases s.len() - from,
{
    if from < 0 || from >= s.len() {
        None
    } else if is_marker(s[from]) {
        Some(from)
    } else {
        first_marker(s, from + 1)
    }
}

/// A marker found is one, and lies at or after `from`.
pub proof fn lemma_first_marker(s: Seq<char>, from: int)
    ensures
        first_marker(s, from) matches Some(m) ==> 0 <= from <= m < s.len() && is_marker(s[m]),
    decreases s.len() - from,
{
    if 0 <= from < s.len() && !is_marker(s[from]) {
        lemma_first_marker(s, from + 1);
    }
}

/// Reacting to new text keeps the positions within the text.
proof fn lemma_settle_wf(s: ScanView, request: ChatRequest)
    requires
        scan_wf(s),
    ensures
        scan_wf(scan_settle(s, request).0),
{
    lemma_first_marker(s.cap.content, s.released);
}

/// Let everything through: send what is held back, mark all text as released
/// and look for markers again.
pub open spec fn scan_release(s: ScanView) -> (ScanView, Seq<ActionView>) {
    (
        ScanView {
            pending: seq![],
            released: s.cap.content.len() as int,
            state: ScanState::Scanning,
            ..s
        },
        if s.pending.len() > 0 {
            seq![ActionView::Send(s.pending)]
        } else {
            seq![]
        },
    )
}

/// No tool call in the text from the marker on (yet): release once it is a
/// closed fence or too long; wait for more text otherwise.
pub open spec fn scan_no_call(s: ScanView) -> (ScanView, Seq<ActionView>) {
    let candidate = s.cap.content.skip(s.marker);
    if fence_contents(candidate) is Some || utf8_len(candidate) > RAW_TOOL_CALL_PASSTHROUGH_THRESHOLD {
        scan_release(s)
    } else {
        (ScanView { state: ScanState::Candidate, ..s }, seq![])
    }
}

/// The text from the marker on is a candidate: where it, taken out of its
/// fence, has the shape of a tool call, hand it out to be deserialised and
/// wait for the answer; otherwise there is no tool call.
pub open spec fn scan_candidate(s: ScanView, request: ChatRequest) -> (ScanView, Seq<ActionView>) {
    match tool_call_text(s.cap.content.skip(s.marker)) {
        Some(text) => (
            ScanView { awaiting: true, state: ScanState::Candidate, ..s },
            seq![ActionView::Parse(text)],
        ),
        None => scan_no_call(s),
    }
}

/// The answer about the text handed out: a tool call of the request is sent
/// in place of what is held back, and the stream ends; without one, as when
/// there is no tool call.
pub open spec fn scan_resolve(s: ScanView, parsed: Option<RawCallView>, request: ChatRequest) -> (
    ScanView,
    Seq<ActionView>,
) {
    let s1 = ScanView { awaiting: false, ..s };
    match normalized_call(parsed, request) {
        Some((name, args)) => {
            let bytes = tool_call_bytes(s1.cap, request, name, args);
            (
                ScanView {
                    end: Some(StreamEnd::ToolCall),
                    state: ScanState::Candidate,
                    call: Some((name, args)),
                    ..s1
                },
                seq![
                    ActionView::Log(LogLabel::ProxyNormalizedToolCall, bytes),
                    ActionView::Log(LogLabel::OllamaResponseStream, s1.raw),
                    ActionView::Send(bytes),
                ],
            )
        },
        None => scan_no_call(s1),
    }
}

/// A backquote opened the text from the marker on: a ```json fence makes it a
/// candidate, a beginning of one waits, anything else is released.
pub open spec fn scan_maybe_fence(s: ScanView, request: ChatRequest) -> (ScanView, Seq<ActionView>) {
    let attempt = s.cap.content.skip(s.marker);
    if fence_json().is_prefix_of(attempt) {
        scan_candidate(s, request)
    } else if attempt.is_prefix_of(fence_json()) {
        (ScanView { state: ScanState::MaybeFence, ..s }, seq![])
    } else {
        scan_release(s)
    }
}

/// Looking at the unreleased text: without a marker everything is released;
/// a `{` or `[` starts a candidate, a backquote a possible fence.
pub open spec fn scan_scanning(s: ScanView, request: ChatRequest) -> (ScanView, Seq<ActionView>) {
    match first_marker(s.cap.content, s.released) {
        None => scan_release(s),
        Some(m) => {
            let t = ScanView { marker: m, ..s };
            if s.cap.content[m] == '{' || s.cap.content[m] == '[' {
                scan_candidate(t, request)
            } else {
                scan_maybe_fence(t, request)
            }
        },
    }
}

/// The scanner's reaction to new text, by the state it is in.
pub open spec fn scan_settle(s: ScanView, request: ChatRequest) -> (ScanView, Seq<ActionView>) {
    match s.state {
        ScanState::Scanning => scan_scanning(s, request),
        ScanState::MaybeFence => scan_maybe_fence(s, request),
        ScanState::Candidate => scan_candidate(s, request),
    }
}

/// End the stream: log the server's bytes under `label`, send what is held
/// back, then, where `with_done`, the closing `[DONE]` event.
pub open spec fn scan_close(s: ScanView, label: LogLabel, end: StreamEnd, with_done: bool) -> (
    ScanView,
    Seq<ActionView>,
) {
    (
        ScanView { end: Some(end), pending: seq![], ..s },
        seq![ActionView::Log(label, s.raw)] + (if s.pending.len() > 0 {
            seq![ActionView::Send(s.pending)]
        } else {
            seq![]
        }) + (if with_done {
            seq![ActionView::Send(done_event())]
        } else {
            seq![]
        }),
    )
}

/// One event, of the server's stream or the answer to a `Parse`, and what
/// the scanner does about it.
pub open spec fn scan_step(s: ScanView, e: EventView, request: ChatRequest) -> (
    ScanView,
    Seq<ActionView>,
) {
    if s.end is Some {
        (s, seq![])
    } else {
        match e {
            EventView::Chunk(b) => {
                let (lb, cap) = absorb(s.line_buf, s.cap, b);
                scan_settle(
                    ScanView {
                        raw: s.raw + b,
                        pending: s.pending + b,
                        line_buf: lb,
                        cap: cap,
                        awaiting: false,
                        ..s
                    },
                    request,
                )
            },
            EventView::Parsed(parsed) => if s.awaiting {
                scan_resolve(s, parsed, request)
            } else {
                (s, seq![])
            },
            EventView::TimedOut => scan_close(
                s,
                LogLabel::OllamaTimeout,
                StreamEnd::TimedOut,
                true,
            ),
            EventView::Failed => scan_close(s, LogLabel::OllamaStreamError, StreamEnd::Failed, true),
            EventView::Ended => scan_close(
                s,
                LogLabel::OllamaResponseStream,
                StreamEnd::Completed,
                false,
            ),
        }
    }
}

/// The scanning of one server stream for a tool call written as text. Its
/// positions always lie within the text it gathered.
pub struct ToolCallScanner {
    core: ScanCore,
}

/// The state of a scanner, with the request it answers.
struct ScanCore {
    request: ChatRequest,
    raw: Vec<u8>,
    pending_raw: Vec<u8>,
    line_buf: Vec<u8>,
    content: String,
    first_chunk: Option<Json>,
    usage_chunk: Option<Json>,
    released_len: usize,
    marker_start: usize,
    state: ScanState,
    awaiting: bool,
    call: Option<(String, String)>,
    end: Option<StreamEnd>,
}

impl View for ToolCallScanner {
    type V = ScanView;

    closed spec fn view(&self) -> ScanView {
        self.core@
    }
}

impl View for ScanCore {
    type V = ScanView;

    closed spec fn view(&self) -> ScanView {
        ScanView {
            raw: self.raw@,
            pending: self.pending_raw@,
            line_buf: self.line_buf@,
            cap: SseCapture {
                content: self.content@,
                first: opt_json_view(self.first_chunk),
                usage: opt_json_view(self.usage_chunk),
            },
            released: self.released_len as int,
            marker: self.marker_start as int,
            state: self.state,
            awaiting: self.awaiting,
            call: match self.call {
                Some((name, args)) => Some((name@, args@)),
                None => None,
            },
            end: self.end,
        }
    }
}

/// Starts scanning a server stream that answers `request`.
pub fn scan_ollama_stream(request: ChatRequest) -> (s: ToolCallScanner)
    ensures
        s@ == scan_initial(),
        s.request() == request,
{
    let s = ToolCallScanner { core: ScanCore::new(request) };
    s
}

impl ToolCallScanner {
    /// The request whose answer is scanned.
    pub closed spec fn request(&self) -> ChatRequest {
        self.core.request
    }

    #[verifier::type_invariant]
    spec fn positions_within_text(self) -> bool {
        scan_wf(self.core@)
    }

    /// Whether the stream has ended; nothing more is to be sent then.
    pub fn is_finished(&self) -> (b: bool)
        ensures
            b == (self@.end is Some),
    {
        self.core.end.is_some()
    }

    /// How the stream ended, once it has.
    pub fn end(&self) -> (e: Option<StreamEnd>)
        ensures
            e == self@.end,
    {
        self.core.end
    }

    /// Takes the next event, of the server's stream or the answer to a
    /// `Parse`, and returns what to do, in order: bytes to send to the client,
    /// bytes to log, or a text to deserialise as a tool call, whose outcome is
    /// to be handed back as the next event.
    pub fn step(&mut self, event: StreamEvent) -> (actions: Vec<StreamAction>)
        ensures
            (final(self)@, actions_view(actions@)) == scan_step(
                old(self)@,
                event@,
                old(self).request(),
            ),
            final(self).request() == old(self).request(),
    {
        proof {
            use_type_invariant(&*self);
        }
        let blank = ChatRequest { model: String::new(), tools: Vec::new(), rest: Json::Null };
        let mut core = ScanCore::new(blank);
        std::mem::swap(&mut core, &mut self.core);
        let actions = core.step(event);
        self.core = core;
        actions
    }
}

impl ScanCore {
    /// The state before anything arrived.
    fn new(request: ChatRequest) -> (s: ScanCore)
        ensures
            s@ == scan_initial(),
            s.request == request,
    {
        let s = ScanCore {
            request,
            raw: Vec::new(),
            pending_raw: Vec::new(),
            line_buf: Vec::new(),
            content: String::new(),
            first_chunk: None,
            usage_chunk: None,
            released_len: 0,
            marker_start: 0,
            state: ScanState::Scanning,
            awaiting: false,
            call: None,
            end: None,
        };
        assert(s@ =~= scan_initial());
        s
    }

    fn release(&mut self, n: usize) -> (actions: Vec<StreamAction>)
        requires
            n == old(self)@.cap.content.len(),
        ensures
            (final(self)@, actions_view(actions@)) == scan_release(old(self)@),
            final(self).request == old(self).request,
    {
        let mut actions: Vec<StreamAction> = Vec::new();
        let held = take_bytes(&mut self.pending_raw);
        assert(self.pending_raw@ =~= Seq::<u8>::empty());
        if held.len() > 0 {
            actions.push(StreamAction::Send(held));
        }
        self.released_len = n;
        self.state = ScanState::Scanning;
        assert(actions_view(actions@) =~= scan_release(old(self)@).1);
        actions
    }

    fn no_call(&mut self, cs: &Vec<char>) -> (actions: Vec<StreamAction>)
        requires
            cs@ == old(self)@.cap.content,
            scan_wf(old(self)@),
        ensures
            (final(self)@, actions_view(actions@)) == scan_no_call(old(self)@),
            final(self).request == old(self).request,
    {
        let n = cs.len();
        let m = self.marker_start;
        assert(cs@.subrange(m as int, n as int) =~= cs@.skip(m as int));
        if fence_range(cs.as_slice(), m, n).is_some() || utf8_len_exceeds(
            cs.as_slice(),
            m,
            n,
            RAW_TOOL_CALL_PASSTHROUGH_THRESHOLD,
        ) {
            self.release(n)
        } else {
            self.state = ScanState::Candidate;
            let actions: Vec<StreamAction> = Vec::new();
            assert(actions_view(actions@) =~= Seq::<ActionView>::empty());
            actions
        }
    }

    fn candidate(&mut self, cs: &Vec<char>) -> (actions: Vec<StreamAction>)
        requires
            old(self)@.end is None,
            cs@ == old(self)@.cap.content,
            scan_wf(old(self)@),
        ensures
            (final(self)@, actions_view(actions@)) == scan_candidate(old(self)@, old(self).request),
            final(self).request == old(self).request,
    {
        let n = cs.len();
        let m = self.marker_start;
        let text = {
            let candidate = self.content.as_str().substring_char(m, n);
            assert(candidate@ =~= cs@.skip(m as int));
            match raw_tool_call_text(candidate) {
                Some(t) => Some(String::from_str(t)),
                None => None,
            }
        };
        match text {
            Some(text) => {
                self.awaiting = true;
                self.state = ScanState::Candidate;
                let actions = vec![StreamAction::Parse(text)];
                assert(actions_view(actions@) =~= scan_candidate(old(self)@, old(self).request).1);
                actions
            },
            None => self.no_call(cs),
        }
    }

    fn resolve(&mut self, parsed: Option<RawToolCall>) -> (actions: Vec<StreamAction>)
        requires
            old(self)@.end is None,
            scan_wf(old(self)@),
        ensures
            (final(self)@, actions_view(actions@)) == scan_resolve(
                old(self)@,
                opt_raw_view(parsed),
                old(self).request,
            ),
            final(self).request == old(self).request,
    {
        self.awaiting = false;
        match try_normalize_raw_tool_call(&parsed, &self.request) {
            Some(call) => {
                let name = call.function.name.clone();
                let args = call.function.arguments.clone();
                let first = match &self.first_chunk {
                    Some(f) => Some(f.deep_clone()),
                    None => None,
                };
                let usage = match &self.usage_chunk {
                    Some(u) => Some(u.deep_clone()),
                    None => None,
                };
                let sse = build_tool_call_sse(self.request.model.as_str(), first, usage, call);
                let bytes = sse.as_str().as_bytes_vec();
                let logged = vstd::slice::slice_to_vec(bytes.as_slice());
                let raw = vstd::slice::slice_to_vec(self.raw.as_slice());
                self.end = Some(StreamEnd::ToolCall);
                self.state = ScanState::Candidate;
                self.call = Some((name, args));
                let actions = vec![
                    StreamAction::Log(LogLabel::ProxyNormalizedToolCall, logged),
                    StreamAction::Log(LogLabel::OllamaResponseStream, raw),
                    StreamAction::Send(bytes),
                ];
                assert(actions_view(actions@) =~= scan_resolve(
                    old(self)@,
                    opt_raw_view(parsed),
                    old(self).request,
                ).1);
                actions
            },
            None => {
                let cs = chars_of(self.content.as_str());
                self.no_call(&cs)
            },
        }
    }

    fn maybe_fence(&mut self, cs: &Vec<char>) -> (actions: Vec<StreamAction>)
        requires
            old(self)@.end is None,
            cs@ == old(self)@.cap.content,
            scan_wf(old(self)@),
        ensures
            (final(self)@, actions_view(actions@)) == scan_maybe_fence(
                old(self)@,
                old(self).request,
            ),
            final(self).request == old(self).request,
    {
        let n = cs.len();
        let m = self.marker_start;
        assert(cs@.subrange(m as int, n as int) =~= cs@.skip(m as int));
        assert(TOOL_CALL_BEGIN_JSON@ == fence_json()) by {
            assert(TOOL_CALL_BEGIN_JSON@ =~= fence_json());
        }
        if starts_with_at(cs.as_slice(), m, n, TOOL_CALL_BEGIN_JSON.as_slice()) {
            self.candidate(cs)
        } else if is_start_of(cs.as_slice(), m, n, TOOL_CALL_BEGIN_JSON.as_slice()) {
            self.state = ScanState::MaybeFence;
            let actions: Vec<StreamAction> = Vec::new();
            assert(actions_view(actions@) =~= Seq::<ActionView>::empty());
            actions
        } else {
            self.release(n)
        }
    }

    fn scanning(&mut self, cs: &Vec<char>) -> (actions: Vec<StreamAction>)
        requires
            old(self)@.end is None,
            cs@ == old(self)@.cap.content,
            scan_wf(old(self)@),
        ensures
            (final(self)@, actions_view(actions@)) == scan_scanning(old(self)@, old(self).request),
            final(self).request == old(self).request,
    {
        let n = cs.len();
        let mut i = self.released_len;
        while i < n && !(cs[i] == '`' || cs[i] == '{' || cs[i] == '[')
            invariant
                self.released_len <= i <= n,
                n == cs@.len(),
                first_marker(cs@, self.released_len as int) == first_marker(cs@, i as int),
            decreases n - i,
        {
            i = i + 1;
        }
        if i == n {
            return self.release(n);
        }
        self.marker_start = i;
        if cs[i] == '{' || cs[i] == '[' {
            self.candidate(cs)
        } else {
            self.maybe_fence(cs)
        }
    }

    /// One event of the server's stream for a state whose positions lie
    /// within its text; they still do afterwards.
    fn step(&mut self, event: StreamEvent) -> (actions: Vec<StreamAction>)
        requires
            scan_wf(old(self)@),
        ensures
            (final(self)@, actions_view(actions@)) == scan_step(
                old(self)@,
                event@,
                old(self).request,
            ),
            final(self).request == old(self).request,
            scan_wf(final(self)@),
    {
        if self.end.is_some() {
            let actions: Vec<StreamAction> = Vec::new();
            assert(actions_view(actions@) =~= Seq::<ActionView>::empty());
            return actions;
        }
        match event {
            StreamEvent::Chunk(bytes) => {
                append_bytes(&mut self.raw, bytes.as_slice());
                append_bytes(&mut self.pending_raw, bytes.as_slice());
                self.awaiting = false;
                let ghost before = self.content@;
                absorb_bytes(
                    &mut self.line_buf,
                    &mut self.content,
                    &mut self.first_chunk,
                    &mut self.usage_chunk,
                    bytes.as_slice(),
                );
                proof {
                    crate::stream::lemma_absorb_extends(old(self)@.line_buf, old(self)@.cap, bytes@);
                }
                let cs = chars_of(self.content.as_str());
                proof {
                    lemma_settle_wf(self@, self.request);
                }
                match self.state {
                    ScanState::Scanning => self.scanning(&cs),
                    ScanState::MaybeFence => self.maybe_fence(&cs),
                    ScanState::Candidate => self.candidate(&cs),
                }
            },
            StreamEvent::Parsed(parsed) => {
                if self.awaiting {
                    self.resolve(parsed)
                } else {
                    let actions: Vec<StreamAction> = Vec::new();
                    assert(actions_view(actions@) =~= Seq::<ActionView>::empty());
                    actions
                }
            },
            _ => {
                let (label, end, with_done) = match event {
                    StreamEvent::TimedOut => (LogLabel::OllamaTimeout, StreamEnd::TimedOut, true),
                    StreamEvent::Failed => (LogLabel::OllamaStreamError, StreamEnd::Failed, true),
                    _ => (LogLabel::OllamaResponseStream, StreamEnd::Completed, false),
                };
                let mut actions: Vec<StreamAction> = Vec::new();
                actions.push(
                    StreamAction::Log(label, vstd::slice::slice_to_vec(self.raw.as_slice())),
                );
                let held = take_bytes(&mut self.pending_raw);
                assert(self.pending_raw@ =~= Seq::<u8>::empty());
                if held.len() > 0 {
                    actions.push(StreamAction::Send(held));
                }
                if with_done {
                    actions.push(StreamAction::Send("data: [DONE]\n\n".as_bytes_vec()));
                }
                self.end = Some(end);
                assert(actions_view(actions@) =~= scan_close(old(self)@, label, end, with_done).1);
                actions
            },
        }
    }
}

/// The scanner over a sequence of events: the state it reaches and every
/// action it asks for, in order.
pub open spec fn scan_run(s: ScanView, events: Seq<EventView>, request: ChatRequest) -> (
    ScanView,
    Seq<ActionView>,
)
    decreases events.len(),
{
    if events.len() == 0 {
        (s, seq![])
    } else {
        let (t, a) = scan_run(s, events.drop_last(), request);
        let (u, b) = scan_step(t, events.last(), request);
        (u, a + b)
    }
}

/// What the client has been sent, `out`, fits the state of the stream: while
/// open, what was sent followed by what is held back is what was received; a
/// completed stream was sent exactly as received, a dead one with `[DONE]`
/// after it; a recognised tool call was sent after the bytes let through
/// before it, in place of the bytes still held back.
pub open spec fn scan_delivered(s: ScanView, out: Seq<u8>, request: ChatRequest) -> bool {
    match s.end {
        None => out + s.pending == s.raw,
        Some(StreamEnd::Completed) => out == s.raw,
        Some(StreamEnd::TimedOut) => out == s.raw + done_event(),
        Some(StreamEnd::Failed) => out == s.raw + done_event(),
        Some(StreamEnd::ToolCall) => {
            &&& s.pending.len() <= s.raw.len()
            &&& match s.call {
                Some((name, args)) => out == s.raw.take(s.raw.len() - s.pending.len())
                    + tool_call_bytes(s.cap, request, name, args) && tool_allowed(request, name),
                None => false,
            }
        },
    }
}

proof fn lemma_sent_single(a: ActionView)
    ensures
        sent(seq![a]) == match a {
            ActionView::Send(b) => b,
            _ => seq![],
        },
{
    lemma_sent_push(seq![], a);
    assert(Seq::<ActionView>::empty().push(a) =~= seq![a]);
}

proof fn lemma_release_delivers(s: ScanView, out: Seq<u8>, request: ChatRequest)
    requires
        s.end is None,
        out + s.pending == s.raw,
    ensures
        scan_delivered(scan_release(s).0, out + sent(scan_release(s).1), request),
{
    lemma_sent_single(ActionView::Send(s.pending));
    if s.pending.len() == 0 {
        assert(s.pending =~= Seq::<u8>::empty());
    }
    assert(out + sent(scan_release(s).1) + seq![] =~= s.raw);
}

proof fn lemma_no_call_delivers(s: ScanView, out: Seq<u8>, request: ChatRequest)
    requires
        s.end is None,
        out + s.pending == s.raw,
    ensures
        scan_delivered(scan_no_call(s).0, out + sent(scan_no_call(s).1), request),
{
    let candidate = s.cap.content.skip(s.marker);
    if fence_contents(candidate) is Some || utf8_len(candidate) > RAW_TOOL_CALL_PASSTHROUGH_THRESHOLD {
        lemma_release_delivers(s, out, request);
    } else {
        assert(out + sent(seq![]) =~= out);
    }
}

proof fn lemma_candidate_delivers(s: ScanView, out: Seq<u8>, request: ChatRequest)
    requires
        s.end is None,
        out + s.pending == s.raw,
    ensures
        scan_delivered(scan_candidate(s, request).0, out + sent(scan_candidate(s, request).1), request),
{
    match tool_call_text(s.cap.content.skip(s.marker)) {
        Some(text) => {
            lemma_sent_single(ActionView::Parse(text));
            assert(out + sent(scan_candidate(s, request).1) =~= out);
        },
        None => lemma_no_call_delivers(s, out, request),
    }
}

proof fn lemma_resolve_delivers(
    s: ScanView,
    out: Seq<u8>,
    parsed: Option<RawCallView>,
    request: ChatRequest,
)
    requires
        s.end is None,
        out + s.pending == s.raw,
    ensures
        scan_delivered(
            scan_resolve(s, parsed, request).0,
            out + sent(scan_resolve(s, parsed, request).1),
            request,
        ),
{
    let s1 = ScanView { awaiting: false, ..s };
    match normalized_call(parsed, request) {
        Some((name, args)) => {
            let bytes = tool_call_bytes(s1.cap, request, name, args);
            let first = seq![ActionView::Log(LogLabel::ProxyNormalizedToolCall, bytes)];
            let second = first.push(ActionView::Log(LogLabel::OllamaResponseStream, s1.raw));
            assert(scan_resolve(s, parsed, request).1 == second.push(ActionView::Send(bytes)));
            lemma_sent_single(ActionView::Log(LogLabel::ProxyNormalizedToolCall, bytes));
            lemma_sent_push(first, ActionView::Log(LogLabel::OllamaResponseStream, s1.raw));
            lemma_sent_push(second, ActionView::Send(bytes));
            assert(s.raw.take(s.raw.len() - s.pending.len()) =~= out);
            assert(out + sent(scan_resolve(s, parsed, request).1) =~= out + bytes);
        },
        None => lemma_no_call_delivers(s1, out, request),
    }
}

proof fn lemma_maybe_fence_delivers(s: ScanView, out: Seq<u8>, request: ChatRequest)
    requires
        s.end is None,
        out + s.pending == s.raw,
    ensures
        scan_delivered(
            scan_maybe_fence(s, request).0,
            out + sent(scan_maybe_fence(s, request).1),
            request,
        ),
{
    let attempt = s.cap.content.skip(s.marker);
    if fence_json().is_prefix_of(attempt) {
        lemma_candidate_delivers(s, out, request);
    } else if attempt.is_prefix_of(fence_json()) {
        assert(out + sent(seq![]) =~= out);
    } else {
        lemma_release_delivers(s, out, request);
    }
}

proof fn lemma_scan_close_delivers(
    s: ScanView,
    out: Seq<u8>,
    label: LogLabel,
    end: StreamEnd,
    with_done: bool,
    request: ChatRequest,
)
    requires
        s.end is None,
        out + s.pending == s.raw,
        end != StreamEnd::ToolCall,
        with_done == (end != StreamEnd::Completed),
    ensures
        scan_delivered(
            scan_close(s, label, end, with_done).0,
            out + sent(scan_close(s, label, end, with_done).1),
            request,
        ),
{
    let logs = seq![ActionView::Log(label, s.raw)];
    let held: Seq<ActionView> = if s.pending.len() > 0 {
        seq![ActionView::Send(s.pending)]
    } else {
        seq![]
    };
    let done: Seq<ActionView> = if with_done {
        seq![ActionView::Send(done_event())]
    } else {
        seq![]
    };
    lemma_sent_append(logs + held, done);
    lemma_sent_append(logs, held);
    lemma_sent_single(ActionView::Log(label, s.raw));
    lemma_sent_single(ActionView::Send(s.pending));
    lemma_sent_single(ActionView::Send(done_event()));
    assert(sent(held) == s.pending) by {
        if s.pending.len() == 0 {
            assert(s.pending =~= Seq::<u8>::empty());
        }
    }
    if with_done {
        assert(out + sent(scan_close(s, label, end, with_done).1) =~= s.raw + done_event());
    } else {
        assert(out + sent(scan_close(s, label, end, with_done).1) =~= s.raw);
    }
}

proof fn lemma_scan_step_delivers(s: ScanView, out: Seq<u8>, e: EventView, request: ChatRequest)
    requires
        scan_delivered(s, out, request),
    ensures
        scan_delivered(scan_step(s, e, request).0, out + sent(scan_step(s, e, request).1), request),
{
    if s.end is Some {
        assert(out + sent(seq![]) =~= out);
        return ;
    }
    match e {
        EventView::Chunk(b) => {
            let (lb, cap) = absorb(s.line_buf, s.cap, b);
            let s1 = ScanView {
                raw: s.raw + b,
                pending: s.pending + b,
                line_buf: lb,
                cap: cap,
                awaiting: false,
                ..s
            };
            assert(out + s1.pending =~= s1.raw);
            match s1.state {
                ScanState::Scanning => {
                    match first_marker(s1.cap.content, s1.released) {
                        None => lemma_release_delivers(s1, out, request),
                        Some(m) => {
                            let t = ScanView { marker: m, ..s1 };
                            if s1.cap.content[m] == '{' || s1.cap.content[m] == '[' {
                                lemma_candidate_delivers(t, out, request);
                            } else {
                                lemma_maybe_fence_delivers(t, out, request);
                            }
                        },
                    }
                },
                ScanState::MaybeFence => lemma_maybe_fence_delivers(s1, out, request),
                ScanState::Candidate => lemma_candidate_delivers(s1, out, request),
            }
        },
        EventView::Parsed(parsed) => {
            if s.awaiting {
                lemma_resolve_delivers(s, out, parsed, request);
            } else {
                assert(out + sent(seq![]) =~= out);
            }
        },
        EventView::TimedOut => {
            lemma_scan_close_delivers(s, out, LogLabel::OllamaTimeout, StreamEnd::TimedOut, true, request);
        },
        EventView::Failed => {
            lemma_scan_close_delivers(s, out, LogLabel::OllamaStreamError, StreamEnd::Failed, true, request);
        },
        EventView::Ended => {
            lemma_scan_close_delivers(
                s,
                out,
                LogLabel::OllamaResponseStream,
                StreamEnd::Completed,
                false,
                request,
            );
        },
    }
}

/// Law of the scanner, for every sequence of server events: the client
/// receives the server's bytes in order and unchanged, except that a
/// recognised tool call takes the place of the bytes still held back when it
/// is recognised; a completed stream has been sent exactly as received, a
/// stream that timed out or failed is followed by `[DONE]`; while the stream
/// is open, what was sent and what is held back together are what was
/// received. What the scanner received is the server's bytes up to the end of
/// the stream: all of them while it is open.
pub proof fn lemma_scanner_forwards_exactly(events: Seq<EventView>, request: ChatRequest)
    ensures
        scan_delivered(
            scan_run(scan_initial(), events, request).0,
            sent(scan_run(scan_initial(), events, request).1),
            request,
        ),
        scan_run(scan_initial(), events, request).0.raw.is_prefix_of(chunk_bytes(events)),
        scan_run(scan_initial(), events, request).0.end is None ==> scan_run(
            scan_initial(),
            events,
            request,
        ).0.raw == chunk_bytes(events),
    decreases events.len(),
{
    if events.len() == 0 {
        assert(scan_initial().raw =~= chunk_bytes(events));
        assert(sent(seq![]) + scan_initial().pending =~= scan_initial().raw);
    } else {
        let prev = events.drop_last();
        let e = events.last();
        lemma_scanner_forwards_exactly(prev, request);
        let (t, a) = scan_run(scan_initial(), prev, request);
        let (u, b) = scan_step(t, e, request);
        lemma_scan_step_delivers(t, sent(a), e, request);
        lemma_sent_append(a, b);
        assert(prev.push(e) =~= events);
        lemma_chunk_bytes_push(prev, e);
        if t.end is None {
            match e {
                EventView::Chunk(bytes) => {
                    assert(u.raw =~= chunk_bytes(events));
                },
                _ => {
                    assert(u.raw =~= t.raw);
                    assert(chunk_bytes(events) =~= chunk_bytes(prev));
                },
            }
        } else {
            assert(u == t);
        }
    }
}

/// The text holds no character that may open a tool call.
pub open spec fn no_marker(text: Seq<char>) -> bool {
    forall|i: int| 0 <= i < text.len() ==> !is_marker(#[trigger] text[i])
}

/// Law of marker search: the marker found from `from` on is the first
/// backquote, `{` or `[` at or after `from`; there is none exactly when no
/// such character stands there.
pub proof fn lemma_first_marker_is_least(s: Seq<char>, from: int)
    requires
        0 <= from,
    ensures
        match first_marker(s, from) {
            Some(m) => {
                &&& from <= m < s.len()
                &&& (s[m] == '`' || s[m] == '{' || s[m] == '[')
                &&& forall|j: int| from <= j < m ==> !(#[trigger] s[j] == '`' || s[j] == '{' || s[j] == '[')
            },
            None => forall|j: int|
                from <= j < s.len() ==> !(#[trigger] s[j] == '`' || s[j] == '{' || s[j] == '['),
        },
    decreases s.len() - from,
{
    if from < s.len() && !is_marker(s[from]) {
        lemma_first_marker_is_least(s, from + 1);
    }
}

/// Law of the scanner: while it looks for a marker, a chunk whose text holds
/// a backquote, `{` or `[` after what was let through puts the marker on the
/// first of them. The stream stays open; unless the text from there on is let
/// through (state `Scanning` again), nothing is sent and the chunk is held
/// back with what was held before; and where the marker is `{` or `[` and the
/// text from it has the shape of a tool call, that text is handed out to be
/// deserialised, and nothing else is done.
pub proof fn lemma_scanning_holds_from_first_marker(
    s: ScanView,
    b: Seq<u8>,
    request: ChatRequest,
    m: int,
)
    requires
        s.end is None,
        s.state == ScanState::Scanning,
        0 <= s.released <= m < absorb(s.line_buf, s.cap, b).1.content.len(),
        ({
            let c = absorb(s.line_buf, s.cap, b).1.content;
            &&& (c[m] == '`' || c[m] == '{' || c[m] == '[')
            &&& forall|j: int| s.released <= j < m ==> !(#[trigger] c[j] == '`' || c[j] == '{' || c[j] == '[')
        }),
    ensures
        scan_step(s, EventView::Chunk(b), request).0.marker == m,
        scan_step(s, EventView::Chunk(b), request).0.end is None,
        scan_step(s, EventView::Chunk(b), request).0.state != ScanState::Scanning ==> {
            &&& scan_step(s, EventView::Chunk(b), request).0.pending == s.pending + b
            &&& sent(scan_step(s, EventView::Chunk(b), request).1) == Seq::<u8>::empty()
        },
        ({
            let c = absorb(s.line_buf, s.cap, b).1.content;
            (c[m] == '{' || c[m] == '[') && tool_call_text(c.skip(m)) is Some ==> {
                &&& scan_step(s, EventView::Chunk(b), request).1 == seq![
                    ActionView::Parse(tool_call_text(c.skip(m))->0),
                ]
                &&& scan_step(s, EventView::Chunk(b), request).0.awaiting
            }
        }),
{
    let c = absorb(s.line_buf, s.cap, b).1.content;
    lemma_first_marker_is_least(c, s.released);
    match first_marker(c, s.released) {
        Some(k) => {
            if k < m {
                assert(!(c[k] == '`' || c[k] == '{' || c[k] == '['));
            }
            if m < k {
                assert(!(c[m] == '`' || c[m] == '{' || c[m] == '['));
            }
            assert(k == m);
        },
        None => {
            assert(!(c[m] == '`' || c[m] == '{' || c[m] == '['));
        },
    }
    lemma_sent_single(ActionView::Parse(seq![]));
    assert(sent(Seq::<ActionView>::empty()) == Seq::<u8>::empty());
    if let Some(t) = tool_call_text(c.skip(m)) {
        lemma_sent_single(ActionView::Parse(t));
    }
}

/// While the gathered text holds no marker, the scanner never answers with a
/// tool call, and while the stream is open it is looking for a marker, has
/// let all the text through and holds nothing back. Events that close nothing
/// leave the stream open or ended by a tool call.
proof fn lemma_no_marker_run(events: Seq<EventView>, request: ChatRequest)
    ensures
        no_marker(scan_run(scan_initial(), events, request).0.cap.content) ==> scan_run(
            scan_initial(),
            events,
            request,
        ).0.end != Some(StreamEnd::ToolCall),
        scan_run(scan_initial(), events, request).0.end is None && no_marker(
            scan_run(scan_initial(), events, request).0.cap.content,
        ) ==> {
            let s = scan_run(scan_initial(), events, request).0;
            &&& s.pending.len() == 0
            &&& s.state == ScanState::Scanning
            &&& s.released == s.cap.content.len()
        },
        stays_open(events) ==> scan_run(scan_initial(), events, request).0.end is None
            || scan_run(scan_initial(), events, request).0.end == Some(StreamEnd::ToolCall),
    decreases events.len(),
{
    if events.len() > 0 {
        let prev = events.drop_last();
        let e = events.last();
        lemma_no_marker_run(prev, request);
        let t = scan_run(scan_initial(), prev, request).0;
        let u = scan_step(t, e, request).0;
        if stays_open(events) {
            assert forall|i: int| 0 <= i < prev.len() implies !is_close(#[trigger] prev[i]) by {
                assert(prev[i] == events[i]);
            }
            assert(!is_close(events[events.len() - 1]));
        }
        if no_marker(u.cap.content) {
            if t.end is None {
                if let EventView::Chunk(b) = e {
                    let (lb, cap) = absorb(t.line_buf, t.cap, b);
                    lemma_absorb_extends(t.line_buf, t.cap, b);
                    assert forall|i: int| 0 <= i < t.cap.content.len() implies !is_marker(
                        #[trigger] t.cap.content[i],
                    ) by {
                        assert(t.cap.content[i] == cap.content[i]);
                    }
                    lemma_first_marker(cap.content, t.released);
                    if first_marker(cap.content, t.released) is Some {
                        let m = first_marker(cap.content, t.released)->0;
                        assert(!is_marker(cap.content[m]));
                    }
                } else {
                    assert(u.cap.content == t.cap.content);
                }
            } else {
                assert(u == t);
            }
        }
    }
}

/// Law of the scanner: plain text is never held back. Whenever the model's
/// text gathered so far holds no backquote, `{` or `[`, the scanner has not
/// answered with a tool call; a stream that no event has closed is still open;
/// and while it is open, the client has been sent every byte received so far,
/// in order, and nothing is held back.
pub proof fn lemma_plain_text_not_held(events: Seq<EventView>, request: ChatRequest)
    requires
        no_marker(scan_run(scan_initial(), events, request).0.cap.content),
    ensures
        scan_run(scan_initial(), events, request).0.end != Some(StreamEnd::ToolCall),
        stays_open(events) ==> scan_run(scan_initial(), events, request).0.end is None,
        scan_run(scan_initial(), events, request).0.end is None ==> {
            &&& scan_run(scan_initial(), events, request).0.pending.len() == 0
            &&& sent(scan_run(scan_initial(), events, request).1) == chunk_bytes(events)
        },
{
    lemma_no_marker_run(events, request);
    lemma_scanner_forwards_exactly(events, request);
    let out = sent(scan_run(scan_initial(), events, request).1);
    assert(out + seq![] =~= out);
}

} // verus!
