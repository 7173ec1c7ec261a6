//! What the streaming state machines of the proxy share: the events that the
//! server's stream delivers, the actions that the caller carries out, and the
//! gathering of whole event lines out of arbitrary byte chunks.
use vstd::prelude::*;

use crate::json::{opt_json_view, Json};
use crate::normalizer::{opt_raw_view, RawCallView, RawToolCall};
use crate::sse::{collect_sse_content, sse_collect, SseCapture};

verus! {

/// What the server's stream did next.
pub enum StreamEvent {
    /// A chunk of bytes arrived.
    Chunk(Vec<u8>),
    /// No byte arrived within the inactivity timeout.
    TimedOut,
    /// The stream reported an error.
    Failed,
    /// The stream ended.
    Ended,
    /// The answer to a `StreamAction::Parse`: what deserialising the text
    /// into a `RawToolCall` gave, nothing where it refused the text.
    Parsed(Option<RawToolCall>),
}

/// The value of a stream event.
pub enum EventView {
    Chunk(Seq<u8>),
    TimedOut,
    Failed,
    Ended,
    Parsed(Option<RawCallView>),
}

impl View for StreamEvent {
    type V = EventView;

    open spec fn view(&self) -> EventView {
        match self {
            StreamEvent::Chunk(b) => EventView::Chunk(b@),
            StreamEvent::TimedOut => EventView::TimedOut,
            StreamEvent::Failed => EventView::Failed,
            StreamEvent::Ended => EventView::Ended,
            StreamEvent::Parsed(p) => EventView::Parsed(opt_raw_view(*p)),
        }
    }
}

/// The name under which a log file is written.
#[derive(Debug, Clone, Copy, PartialEq, Eq, Structural)]
pub enum LogLabel {
    OllamaTimeout,
    OllamaStreamError,
    OllamaResponseStream,
    ProxyNormalizedToolCall,
}

impl LogLabel {
    /// The label as it appears in the log file's name.
    pub fn as_str(&self) -> (s: &'static str)
        ensures
            s@ == label_text(*self),
    {
        match self {
            LogLabel::OllamaTimeout => "ollama-timeout",
            LogLabel::OllamaStreamError => "ollama-stream-error",
            LogLabel::OllamaResponseStream => "ollama-response-stream",
            LogLabel::ProxyNormalizedToolCall => "proxy-normalized-tool-call",
        }
    }
}

/// The text of a log label.
pub open spec fn label_text(label: LogLabel) -> Seq<char> {
    match label {
        LogLabel::OllamaTimeout => "ollama-timeout"@,
        LogLabel::OllamaStreamError => "ollama-stream-error"@,
        LogLabel::OllamaResponseStream => "ollama-response-stream"@,
        LogLabel::ProxyNormalizedToolCall => "proxy-normalized-tool-call"@,
    }
}

/// Something the caller is to do.
pub enum StreamAction {
    /// Send these bytes to the client.
    Send(Vec<u8>),
    /// Write these bytes to a log file with this label.
    Log(LogLabel, Vec<u8>),
    /// Deserialise this text into a `RawToolCall` and hand the outcome back
    /// as the next event, `StreamEvent::Parsed`.
    Parse(String),
}

/// The value of an action.
pub enum ActionView {
    Send(Seq<u8>),
    Log(LogLabel, Seq<u8>),
    Parse(Seq<char>),
}

impl View for StreamAction {
    type V = ActionView;

    open spec fn view(&self) -> ActionView {
        match self {
            StreamAction::Send(b) => ActionView::Send(b@),
            StreamAction::Log(l, b) => ActionView::Log(*l, b@),
            StreamAction::Parse(t) => ActionView::Parse(t@),
        }
    }
}

/// The values of a list of actions.
pub open spec fn actions_view(actions: Seq<StreamAction>) -> Seq<ActionView> {
    Seq::new(actions.len(), |i: int| actions[i]@)
}

/// How a stream came to its end.
#[derive(Debug, Clone, Copy, PartialEq, Eq, Structural)]
pub enum StreamEnd {
    /// The server's stream ended.
    Completed,
    /// The server went silent for too long.
    TimedOut,
    /// The server's stream reported an error.
    Failed,
    /// A tool call was recognised and sent in place of the stream.
    ToolCall,
}

/// The bytes sent to the client by these actions, in order.
pub open spec fn sent(actions: Seq<ActionView>) -> Seq<u8>
    decreases actions.len(),
{
    if actions.len() == 0 {
        seq![]
    } else {
        sent(actions.drop_last()) + match actions.last() {
            ActionView::Send(b) => b,
            _ => seq![],
        }
    }
}

/// The bytes of the chunks among these events, in order.
pub open spec fn chunk_bytes(events: Seq<EventView>) -> Seq<u8>
    decreases events.len(),
{
    if events.len() == 0 {
        seq![]
    } else {
        chunk_bytes(events.drop_last()) + match events.last() {
            EventView::Chunk(b) => b,
            _ => seq![],
        }
    }
}

/// An event that closes the server's stream.
pub open spec fn is_close(e: EventView) -> bool {
    e is TimedOut || e is Failed || e is Ended
}

/// None of these events closes the server's stream.
pub open spec fn stays_open(events: Seq<EventView>) -> bool {
    forall|i: int| 0 <= i < events.len() ==> !is_close(#[trigger] events[i])
}

/// One `Send` of each chunk among these events, in order, each chunk as it came.
pub open spec fn chunk_sends(events: Seq<EventView>) -> Seq<ActionView>
    decreases events.len(),
{
    if events.len() == 0 {
        seq![]
    } else {
        chunk_sends(events.drop_last()) + match events.last() {
            EventView::Chunk(b) => seq![ActionView::Send(b)],
            _ => seq![],
        }
    }
}

/// The event that closes a stream for the client: `data: [DONE]` and a blank line.
pub open spec fn done_event() -> Seq<u8> {
    vstd::utf8::encode_utf8("data: [DONE]\n\n"@)
}

/// Position of the last line feed byte of `s`.
pub open spec fn last_newline(s: Seq<u8>) -> Option<int>
    decreases s.len(),
{
    if s.len() == 0 {
        None
    } else if s.last() == 10u8 {
        Some(s.len() - 1)
    } else {
        last_newline(s.drop_last())
    }
}

/// The partial line held back, and what has been gathered from whole lines,
/// after `bytes` arrive.
pub open spec fn absorb(line_buf: Seq<u8>, cap: SseCapture, bytes: Seq<u8>) -> (Seq<u8>, SseCapture) {
    let lb = line_buf + bytes;
    match last_newline(lb) {
        None => (lb, cap),
        Some(k) => (lb.skip(k + 1), sse_collect(cap, lb.take(k + 1))),
    }
}

/// Absorbing bytes only ever adds to the gathered text.
pub proof fn lemma_absorb_extends(line_buf: Seq<u8>, cap: SseCapture, bytes: Seq<u8>)
    ensures
        cap.content.is_prefix_of(absorb(line_buf, cap, bytes).1.content),
{
    let lb = line_buf + bytes;
    match last_newline(lb) {
        None => {
            assert(cap.content.subrange(0, cap.content.len() as int) =~= cap.content);
        },
        Some(k) => {
            crate::sse::lemma_sse_lines_extends(cap, crate::text::lines(crate::sse::utf8_lossy(lb.take(k + 1))));
        },
    }
}

/// Where the last line feed stands, and that none follows it.
proof fn lemma_last_newline(s: Seq<u8>)
    ensures
        match last_newline(s) {
            Some(k) => 0 <= k < s.len() && s[k] == 10u8 && forall|j: int|
                k < j < s.len() ==> s[j] != 10u8,
            None => forall|j: int| 0 <= j < s.len() ==> s[j] != 10u8,
        },
    decreases s.len(),
{
    if s.len() > 0 && s.last() != 10u8 {
        lemma_last_newline(s.drop_last());
        assert forall|j: int| 0 <= j < s.len() - 1 implies s[j] == s.drop_last()[j] by {}
    }
}

/// The last line feed of `u + v` is that of `v`, or that of `u` where `v` has none.
proof fn lemma_last_newline_concat(u: Seq<u8>, v: Seq<u8>)
    ensures
        last_newline(u + v) == match last_newline(v) {
            Some(j) => Some(u.len() + j),
            None => last_newline(u),
        },
    decreases v.len(),
{
    if v.len() == 0 {
        assert(u + v =~= u);
    } else {
        assert((u + v).drop_last() =~= u + v.drop_last());
        assert((u + v).last() == v.last());
        lemma_last_newline_concat(u, v.drop_last());
    }
}

/// The whole lines that have arrived form valid UTF-8.
pub open spec fn whole_lines_valid(bytes: Seq<u8>) -> bool {
    match last_newline(bytes) {
        Some(k) => vstd::utf8::valid_utf8(bytes.take(k + 1)),
        None => true,
    }
}

/// Law of line gathering: bytes that arrive in two chunks are gathered as if
/// they had arrived in one, wherever the server cut them, as long as the
/// whole lines form valid UTF-8.
pub proof fn lemma_absorb_in_two(line_buf: Seq<u8>, cap: SseCapture, a: Seq<u8>, b: Seq<u8>)
    requires
        whole_lines_valid(line_buf + a + b),
    ensures
        absorb(absorb(line_buf, cap, a).0, absorb(line_buf, cap, a).1, b) == absorb(
            line_buf,
            cap,
            a + b,
        ),
{
    let u = line_buf + a;
    let x = u + b;
    assert(line_buf + (a + b) =~= x);
    lemma_last_newline_concat(u, b);
    match last_newline(u) {
        None => {},
        Some(k1) => {
            lemma_last_newline(u);
            let lb1 = u.skip(k1 + 1);
            let cap1 = sse_collect(cap, u.take(k1 + 1));
            let y = lb1 + b;
            lemma_last_newline(lb1);
            assert forall|j: int| 0 <= j < lb1.len() implies lb1[j] != 10u8 by {
                assert(lb1[j] == u[k1 + 1 + j]);
            }
            lemma_last_newline_concat(lb1, b);
            match last_newline(y) {
                None => {
                    assert(x.take(k1 + 1) =~= u.take(k1 + 1));
                    assert(x.skip(k1 + 1) =~= y);
                },
                Some(k2) => {
                    lemma_last_newline(y);
                    assert forall|j: int| 0 <= j < y.len() implies y[j] == x[k1 + 1 + j] by {
                        if j < lb1.len() {
                            assert(y[j] == lb1[j]);
                        } else {
                            assert(y[j] == b[j - lb1.len()]);
                        }
                    }
                    let big = k1 + 1 + k2;
                    assert(last_newline(x) == Some(big));
                    assert(x.take(big + 1) =~= u.take(k1 + 1) + y.take(k2 + 1));
                    assert(x.skip(big + 1) =~= y.skip(k2 + 1));
                    assert(u.take(k1 + 1).last() == 10u8);
                    crate::sse::lemma_collect_in_two(cap, u.take(k1 + 1), y.take(k2 + 1));
                },
            }
        },
    }
}

/// Sent bytes of one more action.
pub proof fn lemma_sent_push(actions: Seq<ActionView>, a: ActionView)
    ensures
        sent(actions.push(a)) == sent(actions) + match a {
            ActionView::Send(b) => b,
            _ => seq![],
        },
{
    assert(actions.push(a).drop_last() =~= actions);
}

/// Sent bytes of two lists of actions, one after the other.
pub proof fn lemma_sent_append(a: Seq<ActionView>, b: Seq<ActionView>)
    ensures
        sent(a + b) == sent(a) + sent(b),
    decreases b.len(),
{
    if b.len() == 0 {
        assert(a + b =~= a);
        assert(sent(a) + sent(b) =~= sent(a));
    } else {
        assert((a + b).drop_last() =~= a + b.drop_last());
        lemma_sent_append(a, b.drop_last());
        assert(sent(a + b) =~= sent(a) + sent(b));
    }
}

/// Chunk bytes of one more event.
pub proof fn lemma_chunk_bytes_push(events: Seq<EventView>, e: EventView)
    ensures
        chunk_bytes(events.push(e)) == chunk_bytes(events) + match e {
            EventView::Chunk(b) => b,
            _ => seq![],
        },
{
    assert(events.push(e).drop_last() =~= events);
}

/// Chunk bytes of two blocks of events.
pub proof fn lemma_chunk_bytes_append(a: Seq<EventView>, b: Seq<EventView>)
    ensures
        chunk_bytes(a + b) == chunk_bytes(a) + chunk_bytes(b),
    decreases b.len(),
{
    if b.len() == 0 {
        assert(a + b =~= a);
        assert(chunk_bytes(a) + chunk_bytes(b) =~= chunk_bytes(a));
    } else {
        assert((a + b).drop_last() =~= a + b.drop_last());
        lemma_chunk_bytes_append(a, b.drop_last());
        assert(chunk_bytes(a + b) =~= chunk_bytes(a) + chunk_bytes(b));
    }
}

/// Finds the last line feed of `v`.
fn find_last_newline(v: &Vec<u8>) -> (r: Option<usize>)
    ensures
        match r {
            Some(k) => last_newline(v@) == Some(k as int) && k < v@.len(),
            None => last_newline(v@) is None,
        },
{
    let mut j = v.len();
    assert(v@.take(j as int) =~= v@);
    while j > 0
        invariant
            j <= v@.len(),
            last_newline(v@) == last_newline(v@.take(j as int)),
        decreases j,
    {
        if v[j - 1] == 10u8 {
            assert(v@.take(j as int).last() == v@[j - 1]);
            return Some(j - 1);
        }
        assert(v@.take(j as int).drop_last() =~= v@.take(j - 1));
        j = j - 1;
    }
    assert(v@.take(0) =~= Seq::<u8>::empty());
    None
}

/// Appends a copy of `bytes` to `v`.
pub(crate) fn append_bytes(v: &mut Vec<u8>, bytes: &[u8])
    ensures
        final(v)@ == old(v)@ + bytes@,
{
    let mut copy = vstd::slice::slice_to_vec(bytes);
    v.append(&mut copy);
}

/// Takes the bytes out of `v`, leaving it empty.
pub(crate) fn take_bytes(v: &mut Vec<u8>) -> (r: Vec<u8>)
    ensures
        r@ == old(v)@,
        final(v)@.len() == 0,
{
    let mut out: Vec<u8> = Vec::new();
    std::mem::swap(&mut out, v);
    out
}

/// Adds `bytes` to the partial line in `line_buf` and records every whole
/// line of the event stream that it completes.
pub(crate) fn absorb_bytes(
    line_buf: &mut Vec<u8>,
    content: &mut String,
    first_chunk: &mut Option<Json>,
    usage_chunk: &mut Option<Json>,
    bytes: &[u8],
)
    ensures
        (final(line_buf)@, SseCapture {
            content: final(content)@,
            first: opt_json_view(*final(first_chunk)),
            usage: opt_json_view(*final(usage_chunk)),
        }) == absorb(
            old(line_buf)@,
            SseCapture {
                content: old(content)@,
                first: opt_json_view(*old(first_chunk)),
                usage: opt_json_view(*old(usage_chunk)),
            },
            bytes@,
        ),
{
    append_bytes(line_buf, bytes);
    let n = line_buf.len();
    match find_last_newline(line_buf) {
        Some(k) => {
            assert(k < n);
            let rest = line_buf.split_off(k + 1);
            let complete = take_bytes(line_buf);
            *line_buf = rest;
            collect_sse_content(complete.as_slice(), content, first_chunk, usage_chunk);
        },
        None => {},
    }
}

} // verus!
