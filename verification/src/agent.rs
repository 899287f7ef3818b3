//! Grounded chat: what is sent to the model each turn, what its replies mean, and
//! what is remembered of the turn.
use vstd::prelude::*;
use vstd::utf8::{decode_utf8, encode_utf8, encode_utf8_decode_utf8, is_char_boundary};

use crate::config::Config;
use crate::json::{object, put, strings, strings_view, Json, JsonView};
use crate::numbers::{is_digit, is_fraction, reads_as_fraction};
use crate::rag::context::{Context, ContextView};
use crate::search::{
    at, byte_len, bytes_in, contains, find_chars, first_at, is_at, strip_end, text_contains,
    text_strip_end,
};
use crate::text::{
    chars_of, copy_opt, lower, lowered, opt_text, start_of_text, string_of, trim_start,
};

verus! {

// ── Messages ─────────────────────────────────────────────────────────────────

/// A message of a conversation.
#[derive(Debug)]
pub struct Message {
    pub role: String,
    pub content: Option<String>,
    pub tool_calls: Option<Vec<ToolCall>>,
    pub tool_call_id: Option<String>,
    pub name: Option<String>,
}

/// A call of a tool by the model.
#[derive(Debug)]
pub struct ToolCall {
    pub id: String,
    pub kind: String,
    pub function: ToolFunction,
}

/// The function that a call names.
#[derive(Debug)]
pub struct ToolFunction {
    pub name: String,
    /// The arguments, as JSON text.
    pub arguments: String,
}

/// What a [`ToolCall`] stands for.
#[verifier::ext_equal]
pub struct ToolCallView {
    pub id: Seq<char>,
    pub kind: Seq<char>,
    pub name: Seq<char>,
    pub arguments: Seq<char>,
}

impl DeepView for ToolCall {
    type V = ToolCallView;

    open spec fn deep_view(&self) -> ToolCallView {
        ToolCallView {
            id: self.id@,
            kind: self.kind@,
            name: self.function.name@,
            arguments: self.function.arguments@,
        }
    }
}

impl Clone for ToolCall {
    fn clone(&self) -> (r: ToolCall)
        ensures
            r.deep_view() == self.deep_view(),
    {
        ToolCall {
            id: self.id.clone(),
            kind: self.kind.clone(),
            function: ToolFunction {
                name: self.function.name.clone(),
                arguments: self.function.arguments.clone(),
            },
        }
    }
}

/// What a [`Message`] stands for.
#[verifier::ext_equal]
pub struct MessageView {
    pub role: Seq<char>,
    pub content: Option<Seq<char>>,
    pub tool_calls: Option<Seq<ToolCallView>>,
    pub tool_call_id: Option<Seq<char>>,
    pub name: Option<Seq<char>>,
}

/// What optional calls stand for.
pub open spec fn calls_view(c: Option<Vec<ToolCall>>) -> Option<Seq<ToolCallView>> {
    match c {
        Some(v) => Some(v.deep_view()),
        None => None,
    }
}

impl View for Message {
    type V = MessageView;

    open spec fn view(&self) -> MessageView {
        MessageView {
            role: self.role@,
            content: opt_text(self.content),
            tool_calls: calls_view(self.tool_calls),
            tool_call_id: opt_text(self.tool_call_id),
            name: opt_text(self.name),
        }
    }
}

impl DeepView for Message {
    type V = MessageView;

    open spec fn deep_view(&self) -> MessageView {
        self@
    }
}

fn copy_calls(c: &Option<Vec<ToolCall>>) -> (r: Option<Vec<ToolCall>>)
    ensures
        calls_view(r) == calls_view(*c),
{
    match c {
        Some(v) => {
            let mut out: Vec<ToolCall> = Vec::new();
            let mut i: usize = 0;
            while i < v.len()
                invariant
                    i <= v@.len(),
                    out@.len() == i,
                    forall|k: int|
                        0 <= k < i ==> (#[trigger] out@[k]).deep_view() == v@[k].deep_view(),
                decreases v@.len() - i,
            {
                out.push(v[i].clone());
                i = i + 1;
            }
            proof {
                assert(out.deep_view() =~= v.deep_view());
            }
            Some(out)
        },
        None => None,
    }
}

impl Clone for Message {
    fn clone(&self) -> (r: Message)
        ensures
            r@ == self@,
    {
        Message {
            role: self.role.clone(),
            content: copy_opt(&self.content),
            tool_calls: copy_calls(&self.tool_calls),
            tool_call_id: copy_opt(&self.tool_call_id),
            name: copy_opt(&self.name),
        }
    }
}

/// A plain message of a role.
pub open spec fn plain(role: Seq<char>, text: Seq<char>) -> MessageView {
    MessageView {
        role: role,
        content: Some(text),
        tool_calls: None,
        tool_call_id: None,
        name: None,
    }
}

/// A message of instructions.
pub fn sys_msg(text: &str) -> (r: Message)
    ensures
        r@ == plain("system"@, text@),
{
    Message {
        role: "system".to_owned(),
        content: Some(text.to_owned()),
        tool_calls: None,
        tool_call_id: None,
        name: None,
    }
}

/// A message of the user.
pub fn user_msg(text: &str) -> (r: Message)
    ensures
        r@ == plain("user"@, text@),
{
    Message {
        role: "user".to_owned(),
        content: Some(text.to_owned()),
        tool_calls: None,
        tool_call_id: None,
        name: None,
    }
}

/// A message of the assistant.
pub fn assistant_msg(text: &str) -> (r: Message)
    ensures
        r@ == plain("assistant"@, text@),
{
    Message {
        role: "assistant".to_owned(),
        content: Some(text.to_owned()),
        tool_calls: None,
        tool_call_id: None,
        name: None,
    }
}

// ── Prompts ──────────────────────────────────────────────────────────────────

/// The instructions of the assistant.
pub const SYSTEM: &'static str =
    "You are a knowledgeable assistant that answers questions about the user's documents. The user's documents are provided to you in full below, under a DOCUMENTS section. Treat their contents as your working knowledge for this conversation.\n\nRules:\n- Answer using the information in the provided documents. You already have them — do not say you need to search or look anything up.\n- If asked to summarize, summarize the documents. If asked about the subject matter, describe what the documents cover. If asked a specific question, answer it from the documents.\n- When a fact comes from a document, you may mention which document it came from (the names are shown as 'DOCUMENT: <name>').\n- If the documents genuinely do not contain the answer, say so plainly rather than inventing facts.\n- For arithmetic, you can compute it directly. Be accurate.\n- Maintain the thread of the conversation; the user may ask follow-up questions that refer back to earlier messages.";

/// What the model is told when there is no document.
pub const NO_DOCUMENTS: &'static str =
    "The user has not added any documents yet. If they ask about documents, let them know they can add one with the “Add” button, and otherwise help as best you can.";

/// What stands before documents that are given in part.
pub const EXCERPTS_NOTE: &'static str =
    "Below are the most relevant excerpts from the user's documents (their library is large). Treat these as your knowledge for this conversation.\n";

/// What stands before documents that are given in full.
pub const FULL_NOTE: &'static str =
    "Below are the user's documents in full. Treat their contents as your knowledge for this conversation.\n";

/// What the model is told about the documents.
pub open spec fn documents_note(c: ContextView) -> Seq<char> {
    if c.text.len() == 0 {
        NO_DOCUMENTS@
    } else {
        (if c.truncated {
            EXCERPTS_NOTE@
        } else {
            FULL_NOTE@
        }) + "\n===== DOCUMENTS =====\n"@ + c.text + "\n===== END DOCUMENTS ====="@
    }
}

/// The messages of a turn: the instructions, the documents, the conversation so
/// far, and what the user says now.
pub open spec fn turn_messages(
    c: ContextView,
    history: Seq<MessageView>,
    message: Seq<char>,
) -> Seq<MessageView> {
    (seq![plain("system"@, SYSTEM@), plain("system"@, documents_note(c))] + history).push(
        plain("user"@, message),
    )
}

/// The messages of a turn: the instructions, the documents, the conversation so
/// far, and what the user says now.
pub fn assemble(context: &Context, history: &[Message], message: &str) -> (r: Vec<Message>)
    ensures
        r.deep_view() == turn_messages(context@, history.deep_view(), message@),
{
    let mut r: Vec<Message> = Vec::new();
    r.push(sys_msg(SYSTEM));
    if context.text.as_str().is_empty() {
        r.push(sys_msg(NO_DOCUMENTS));
    } else {
        let mut note = if context.truncated {
            EXCERPTS_NOTE.to_owned()
        } else {
            FULL_NOTE.to_owned()
        };
        note.push_str("\n===== DOCUMENTS =====\n");
        note.push_str(context.text.as_str());
        note.push_str("\n===== END DOCUMENTS =====");
        r.push(sys_msg(note.as_str()));
    }
    let ghost head = r.deep_view();
    let ghost all = history.deep_view();
    let mut i: usize = 0;
    proof {
        assert(head =~= seq![plain("system"@, SYSTEM@), plain("system"@, documents_note(context@))]);
        assert(head + all.take(0) =~= head);
    }
    while i < history.len()
        invariant
            i <= history@.len(),
            all == history.deep_view(),
            all.len() == history@.len(),
            r.deep_view() == head + all.take(i as int),
        decreases history@.len() - i,
    {
        let ghost before = r.deep_view();
        let m = history[i].clone();
        r.push(m);
        proof {
            assert(all[i as int] == history@[i as int]@);
            assert(r.deep_view() =~= before.push(m@));
            assert(r.deep_view() =~= head + all.take(i + 1));
        }
        i = i + 1;
    }
    let ghost before = r.deep_view();
    let u = user_msg(message);
    r.push(u);
    proof {
        assert(all.take(i as int) =~= all);
        assert(r.deep_view() =~= before.push(u@));
    }
    r
}

// ── The service ──────────────────────────────────────────────────────────────

/// The service runs on this machine.
pub open spec fn local_base(base: Seq<char>) -> bool {
    contains(base, "localhost"@) || contains(base, "127.0.0.1"@)
}

/// Whether the service runs on this machine.
pub fn is_local(base: &str) -> (r: bool)
    ensures
        r == local_base(base@),
{
    text_contains(base, "localhost") || text_contains(base, "127.0.0.1")
}

/// What a turn without a key is answered.
pub const NO_KEY: &'static str =
    "NO_KEY: I need a free key to start. Open Settings (the gear icon) and paste your Groq key — you can get one free in under a minute at console.groq.com/keys.";

/// Whether a turn has to be refused because the service needs a key and there is
/// none. A service on this machine needs none.
pub fn lacks_key(cfg: &Config) -> (r: bool)
    ensures
        r == (cfg@.api_key.len() == 0 && !local_base(cfg@.api_base)),
{
    cfg.api_key.as_str().is_empty() && !is_local(cfg.api_base.as_str())
}

/// Where turns are sent.
pub fn chat_url(base: &str) -> (r: String)
    ensures
        r@ == strip_end(base@, '/') + "/chat/completions"@,
{
    let mut r = text_strip_end(base, '/');
    r.push_str("/chat/completions");
    r
}

/// What a turn is answered when the service cannot be reached.
pub open spec fn unreachable_text(local: bool, details: Seq<char>) -> Seq<char> {
    (if local {
        "CONN: I couldn't reach the local AI. Open Settings and switch to Groq (free), or start your local model. (details: "@
    } else {
        "CONN: I couldn't reach the AI service. Check your internet connection. (details: "@
    }) + details + ")"@
}

/// What a turn is answered when the service cannot be reached.
pub fn not_reached(base: &str, details: &str) -> (r: String)
    ensures
        r@ == unreachable_text(local_base(base@), details@),
{
    let mut r = if is_local(base) {
        "CONN: I couldn't reach the local AI. Open Settings and switch to Groq (free), or start your local model. (details: ".to_owned()
    } else {
        "CONN: I couldn't reach the AI service. Check your internet connection. (details: ".to_owned()
    };
    r.push_str(details);
    r.push_str(")");
    r
}

// ── Retries ──────────────────────────────────────────────────────────────────

/// How often a turn is sent again when the service limits its rate.
pub const MAX_RETRIES: u32 = 3;

/// Whether to wait and send again after try number `attempt`, counted from 1.
pub fn should_retry(status: u16, attempt: u32) -> (r: bool)
    ensures
        r == (status == 429 && attempt <= MAX_RETRIES),
{
    status == 429 && attempt <= MAX_RETRIES
}

/// How long the service asks to wait.
#[derive(Debug)]
pub struct RetryHint {
    /// A decimal fraction.
    pub number: String,
    /// It counts milliseconds; else seconds.
    pub millis: bool,
}

/// What a [`RetryHint`] stands for.
#[verifier::ext_equal]
pub struct RetryView {
    pub number: Seq<char>,
    pub millis: bool,
}

/// What an optional hint stands for.
pub open spec fn hint_view(h: Option<RetryHint>) -> Option<RetryView> {
    match h {
        Some(r) => Some(RetryView { number: r.number@, millis: r.millis }),
        None => None,
    }
}

/// How many characters at the front are digits or points.
pub open spec fn number_len(s: Seq<char>) -> nat
    decreases s.len(),
{
    if s.len() > 0 && (is_digit(s[0]) || s[0] == '.') {
        1 + number_len(s.drop_first())
    } else {
        0
    }
}

/// The wait that a text starts with: a number, and "ms" behind it or not.
pub open spec fn wait_at_start(tail: Seq<char>) -> Option<RetryView> {
    let n = number_len(tail) as int;
    if is_fraction(tail.take(n)) {
        Some(
            RetryView {
                number: tail.take(n),
                millis: at(trim_start(tail.skip(n)), "ms"@, 0),
            },
        )
    } else {
        None
    }
}

/// The wait that a text in lower case suggests behind "try again in".
pub open spec fn suggested_wait(low: Seq<char>) -> Option<RetryView> {
    match first_at(low, "try again in"@) {
        None => None,
        Some(i) => wait_at_start(trim_start(low.skip(i + "try again in"@.len()))),
    }
}

fn rest_of(s: &[char], from: usize) -> (r: Vec<char>)
    requires
        from <= s@.len(),
    ensures
        r@ == s@.skip(from as int),
{
    let mut r: Vec<char> = Vec::new();
    let mut i: usize = from;
    while i < s.len()
        invariant
            from <= i <= s@.len(),
            r@ == s@.subrange(from as int, i as int),
        decreases s@.len() - i,
    {
        r.push(s[i]);
        proof {
            assert(r@ =~= s@.subrange(from as int, i + 1));
        }
        i = i + 1;
    }
    proof {
        assert(s@.subrange(from as int, i as int) =~= s@.skip(from as int));
    }
    r
}

fn trimmed_front(s: &[char]) -> (r: Vec<char>)
    ensures
        r@ == trim_start(s@),
{
    let i = start_of_text(s);
    rest_of(s, i)
}

fn number_end(tail: &[char]) -> (n: usize)
    ensures
        n == number_len(tail@),
        n <= tail@.len(),
{
    let mut n: usize = 0;
    proof {
        assert(tail@.skip(0) =~= tail@);
    }
    while n < tail.len() && (('0' <= tail[n] && tail[n] <= '9') || tail[n] == '.')
        invariant
            n <= tail@.len(),
            number_len(tail@) == n + number_len(tail@.skip(n as int)),
        decreases tail@.len() - n,
    {
        proof {
            assert(tail@.skip(n as int)[0] == tail@[n as int]);
            assert(tail@.skip(n as int).drop_first() =~= tail@.skip(n + 1));
        }
        n = n + 1;
    }
    proof {
        if n < tail@.len() {
            assert(tail@.skip(n as int)[0] == tail@[n as int]);
        }
    }
    n
}

fn wait_from(tail: &[char]) -> (r: Option<RetryHint>)
    ensures
        hint_view(r) == wait_at_start(tail@),
{
    let n = number_end(tail);
    let number = string_of(tail, 0, n);
    proof {
        assert(number@ =~= tail@.take(n as int));
    }
    let digits = chars_of(number.as_str());
    if !reads_as_fraction(&digits) {
        return None;
    }
    let behind = rest_of(tail, n);
    let unit = trimmed_front(&behind);
    let ms = chars_of("ms");
    let millis = is_at(&unit, &ms, 0);
    Some(RetryHint { number: number, millis: millis })
}

/// The wait that a text in lower case suggests.
pub fn wait_in(low: &[char]) -> (r: Option<RetryHint>)
    ensures
        hint_view(r) == suggested_wait(low@),
{
    let phrase = chars_of("try again in");
    match find_chars(low, &phrase) {
        None => None,
        Some(i) => {
            let from: usize = i + phrase.len();
            let after = rest_of(low, from);
            let tail = trimmed_front(&after);
            wait_from(&tail)
        },
    }
}

/// The wait that the body of a rate-limit reply suggests.
pub fn parse_retry(body: &str) -> (r: Option<RetryHint>)
    ensures
        hint_view(r) == suggested_wait(lowered(body@)),
{
    let low = lower(body);
    let cs = chars_of(low.as_str());
    wait_in(&cs)
}

// ── Failures ─────────────────────────────────────────────────────────────────

/// What kind of failure a reply reports.
#[derive(Debug, Clone, Copy, PartialEq, Eq, Structural)]
pub enum Failure {
    BadKey,
    BadModel,
    TooBig,
    Other,
}

/// What kind of failure a reply reports, by its status and its body in lower
/// case.
pub open spec fn failure(status: u16, low: Seq<char>) -> Failure {
    if status == 401 || status == 403 || contains(low, "invalid api key"@) || contains(
        low,
        "incorrect api key"@,
    ) || contains(low, "unauthorized"@) {
        Failure::BadKey
    } else if contains(low, "model"@) && (contains(low, "not found"@) || contains(
        low,
        "does not exist"@,
    ) || contains(low, "decommissioned"@)) {
        Failure::BadModel
    } else if contains(low, "context"@) && (contains(low, "length"@) || contains(low, "maximum"@)
        || contains(low, "too large"@) || contains(low, "token"@)) {
        Failure::TooBig
    } else {
        Failure::Other
    }
}

/// What kind of failure a reply reports, by its status and its body in lower
/// case.
pub fn classify_failure(status: u16, low: &str) -> (r: Failure)
    ensures
        r == failure(status, low@),
{
    if status == 401 || status == 403 || text_contains(low, "invalid api key") || text_contains(
        low,
        "incorrect api key",
    ) || text_contains(low, "unauthorized") {
        Failure::BadKey
    } else if text_contains(low, "model") && (text_contains(low, "not found") || text_contains(
        low,
        "does not exist",
    ) || text_contains(low, "decommissioned")) {
        Failure::BadModel
    } else if text_contains(low, "context") && (text_contains(low, "length") || text_contains(
        low,
        "maximum",
    ) || text_contains(low, "too large") || text_contains(low, "token")) {
        Failure::TooBig
    } else {
        Failure::Other
    }
}

pub const BAD_KEY: &'static str =
    "BAD_KEY: That API key was rejected. Open Settings and paste a valid Groq key (free at console.groq.com/keys).";

pub const BAD_MODEL: &'static str =
    "BAD_MODEL: The selected model isn't available. Open Settings, click 'See list', and pick one.";

pub const TOO_BIG: &'static str =
    "TOO_BIG: Those documents are too large to fit all at once. Try removing some, or ask a specific question so I can focus on the relevant parts.";

/// How many bytes of a failure's body are passed on.
pub const ERROR_BYTES: usize = 300;

/// The beginning of a body: its first bytes if it is long.
pub open spec fn body_start(body: Seq<char>) -> Seq<char> {
    if byte_len(body) > ERROR_BYTES {
        decode_utf8(encode_utf8(body).take(ERROR_BYTES as int))
    } else {
        body
    }
}

/// A body can be cut behind its first bytes: no character reaches over the cut.
pub open spec fn can_cut(body: Seq<char>) -> bool {
    byte_len(body) > ERROR_BYTES ==> is_char_boundary(encode_utf8(body), ERROR_BYTES as int)
}

/// Whether a body can be cut behind its first bytes.
pub fn is_cuttable(body: &str) -> (r: bool)
    ensures
        r == can_cut(body@),
{
    bytes_in(body) <= ERROR_BYTES || body.is_char_boundary(ERROR_BYTES)
}

/// What a turn is answered when the service reports a failure: by its kind, its
/// status in words and its body.
pub open spec fn failure_text(kind: Failure, status: Seq<char>, body: Seq<char>) -> Seq<char> {
    match kind {
        Failure::BadKey => BAD_KEY@,
        Failure::BadModel => BAD_MODEL@,
        Failure::TooBig => TOO_BIG@,
        Failure::Other => "The AI service returned an error ("@ + status + "). "@ + body_start(
            body,
        ),
    }
}

/// What a turn is answered when the service reports a failure of a kind.
pub fn failure_reply(kind: Failure, status: &str, body: &str) -> (r: String)
    requires
        kind == Failure::Other ==> can_cut(body@),
    ensures
        r@ == failure_text(kind, status@, body@),
{
    match kind {
        Failure::BadKey => BAD_KEY.to_owned(),
        Failure::BadModel => BAD_MODEL.to_owned(),
        Failure::TooBig => TOO_BIG.to_owned(),
        Failure::Other => {
            let mut r = "The AI service returned an error (".to_owned();
            r.push_str(status);
            r.push_str("). ");
            if bytes_in(body) > ERROR_BYTES {
                let (start, _rest) = body.split_at(ERROR_BYTES);
                proof {
                    encode_utf8_decode_utf8(start@);
                    assert(encode_utf8(start@) =~= encode_utf8(body@).take(ERROR_BYTES as int));
                }
                r.push_str(start);
            } else {
                r.push_str(body);
            }
            r
        },
    }
}

/// What kind of failure a reply reports.
pub fn failure_kind(status: u16, body: &str) -> (r: Failure)
    ensures
        r == failure(status, lowered(body@)),
{
    let low = lower(body);
    classify_failure(status, low.as_str())
}

/// What to do after a reply.
#[derive(Debug)]
pub enum NextAction {
    /// Wait as long as the service asks, if it says how long, and send again.
    WaitAndResend(Option<RetryHint>),
    /// Read the answer in the reply.
    ReadAnswer,
    /// Give up because of a failure.
    Fail(Failure),
}

/// What a [`NextAction`] stands for.
#[verifier::ext_equal]
pub enum ActionView {
    WaitAndResend(Option<RetryView>),
    ReadAnswer,
    Fail(Failure),
}

impl View for NextAction {
    type V = ActionView;

    open spec fn view(&self) -> ActionView {
        match self {
            NextAction::WaitAndResend(h) => ActionView::WaitAndResend(hint_view(*h)),
            NextAction::ReadAnswer => ActionView::ReadAnswer,
            NextAction::Fail(f) => ActionView::Fail(*f),
        }
    }
}

/// The status reports success.
pub open spec fn successful(status: u16) -> bool {
    200 <= status < 300
}

/// What to do after the reply to try number `attempt`, by its status and its
/// body.
pub open spec fn turn_action(status: u16, attempt: u32, body: Seq<char>) -> ActionView {
    if status == 429 && attempt <= MAX_RETRIES {
        ActionView::WaitAndResend(suggested_wait(lowered(body)))
    } else if successful(status) {
        ActionView::ReadAnswer
    } else {
        ActionView::Fail(failure(status, lowered(body)))
    }
}

/// What to do after the reply to try number `attempt`, counted from 1.
pub fn next_action(status: u16, attempt: u32, body: &str) -> (r: NextAction)
    ensures
        r@ == turn_action(status, attempt, body@),
{
    if should_retry(status, attempt) {
        NextAction::WaitAndResend(parse_retry(body))
    } else if 200 <= status && status < 300 {
        NextAction::ReadAnswer
    } else {
        NextAction::Fail(failure_kind(status, body))
    }
}

/// A turn that has been sent and waits for a reply.
pub struct Sending {
    sent: u32,
}

impl View for Sending {
    type V = int;

    /// How often the turn has been sent.
    closed spec fn view(&self) -> int {
        self.sent as int
    }
}

/// What comes after a reply.
pub enum SendStep {
    /// Wait as long as the service asks, if it says how long, and send again.
    Resend(Sending, Option<RetryHint>),
    /// Read the answer in the reply.
    ReadAnswer,
    /// Give up because of a failure.
    Fail(Failure),
}

/// What a [`SendStep`] stands for.
#[verifier::ext_equal]
pub enum SendView {
    Resend(int, Option<RetryView>),
    ReadAnswer,
    Fail(Failure),
}

impl View for SendStep {
    type V = SendView;

    open spec fn view(&self) -> SendView {
        match self {
            SendStep::Resend(s, h) => SendView::Resend(s@, hint_view(*h)),
            SendStep::ReadAnswer => SendView::ReadAnswer,
            SendStep::Fail(f) => SendView::Fail(*f),
        }
    }
}

/// What comes after the reply to a turn that has been sent `sent` times.
pub open spec fn after_reply(sent: int, status: u16, body: Seq<char>) -> SendView {
    if status == 429 && sent <= MAX_RETRIES {
        SendView::Resend(sent + 1, suggested_wait(lowered(body)))
    } else if successful(status) {
        SendView::ReadAnswer
    } else {
        SendView::Fail(failure(status, lowered(body)))
    }
}

impl Sending {
    #[verifier::type_invariant]
    spec fn inv(self) -> bool {
        1 <= self.sent <= MAX_RETRIES + 1
    }

    /// A turn that is sent for the first time.
    pub fn first() -> (r: Sending)
        ensures
            r@ == 1,
    {
        Sending { sent: 1 }
    }

    /// How often the turn has been sent.
    pub fn times(&self) -> (r: u32)
        ensures
            r == self@,
    {
        self.sent
    }

    /// Goes on after a reply.
    pub fn replied(self, status: u16, body: &str) -> (r: SendStep)
        ensures
            r@ == after_reply(self@, status, body@),
    {
        proof {
            use_type_invariant(&self);
        }
        match next_action(status, self.sent, body) {
            NextAction::WaitAndResend(hint) => {
                SendStep::Resend(Sending { sent: self.sent + 1 }, hint)
            },
            NextAction::ReadAnswer => SendStep::ReadAnswer,
            NextAction::Fail(kind) => SendStep::Fail(kind),
        }
    }
}

// ── Results ──────────────────────────────────────────────────────────────────

/// The answer that a reply gives: the content of its first choice, or nothing.
pub open spec fn first_answer(choices: Seq<Option<Seq<char>>>) -> Seq<char> {
    if choices.len() > 0 && choices[0] is Some {
        choices[0].unwrap()
    } else {
        Seq::empty()
    }
}

/// The answer that a reply gives: the content of its first choice, or nothing.
pub fn answer_of(choices: &[Option<String>]) -> (r: String)
    ensures
        r@ == first_answer(choices@.map_values(|c: Option<String>| opt_text(c))),
{
    if choices.len() == 0 {
        return String::new();
    }
    match &choices[0] {
        Some(s) => s.clone(),
        None => String::new(),
    }
}

/// What a turn adds to the memory of a session: what the user said and what was
/// answered. The instructions and documents are put together anew each turn and
/// are not remembered.
pub fn saved_turns(message: &str, answer: &str) -> (r: Vec<Message>)
    ensures
        r.deep_view() == seq![plain("user"@, message@), plain("assistant"@, answer@)],
{
    let mut r: Vec<Message> = Vec::new();
    r.push(user_msg(message));
    r.push(assistant_msg(answer));
    proof {
        assert(r.deep_view() =~= seq![plain("user"@, message@), plain("assistant"@, answer@)]);
    }
    r
}

/// A tool that took part in an answer.
#[derive(Debug)]
pub struct ToolUsed {
    pub tool: String,
    pub detail: Json,
}

/// What a [`ToolUsed`] stands for.
#[verifier::ext_equal]
pub struct ToolUsedView {
    pub tool: Seq<char>,
    pub detail: JsonView,
}

impl DeepView for ToolUsed {
    type V = ToolUsedView;

    open spec fn deep_view(&self) -> ToolUsedView {
        ToolUsedView { tool: self.tool@, detail: self.detail@ }
    }
}

/// The outcome of a turn.
#[derive(Debug)]
pub struct TurnResult {
    pub answer: String,
    pub tools_used: Vec<ToolUsed>,
    /// The documents that were in the context.
    pub sources: Vec<String>,
}

/// What a [`TurnResult`] stands for.
#[verifier::ext_equal]
pub struct TurnView {
    pub answer: Seq<char>,
    pub tools_used: Seq<ToolUsedView>,
    pub sources: Seq<Seq<char>>,
}

impl View for TurnResult {
    type V = TurnView;

    open spec fn view(&self) -> TurnView {
        TurnView {
            answer: self.answer@,
            tools_used: self.tools_used.deep_view(),
            sources: self.sources.deep_view(),
        }
    }
}

/// The outcome of a turn: the answer, and the documents that were in the context.
pub open spec fn turn_result(answer: Seq<char>, c: ContextView) -> TurnView {
    TurnView {
        answer: answer,
        tools_used: if c.sources.len() > 0 {
            seq![
                ToolUsedView {
                    tool: "documents"@,
                    detail: JsonView::Obj(
                        seq![
                            ("in_context"@, strings_view(c.sources)),
                            ("truncated"@, JsonView::Bool(c.truncated)),
                        ],
                    ),
                },
            ]
        } else {
            Seq::empty()
        },
        sources: c.sources,
    }
}

/// The outcome of a turn.
pub fn conclude_turn(answer: String, context: Context) -> (r: TurnResult)
    ensures
        r@ == turn_result(answer@, context@),
{
    let mut used: Vec<ToolUsed> = Vec::new();
    proof {
        assert(context.sources.deep_view().len() == context.sources@.len());
    }
    if context.sources.len() > 0 {
        let mut fields: Vec<(String, Json)> = Vec::new();
        put(&mut fields, "in_context", strings(&context.sources));
        put(&mut fields, "truncated", Json::Bool(context.truncated));
        let detail = object(fields);
        used.push(ToolUsed { tool: "documents".to_owned(), detail: detail });
        proof {
            assert(detail@->Obj_0 =~= seq![
                ("in_context"@, strings_view(context@.sources)),
                ("truncated"@, JsonView::Bool(context.truncated)),
            ]);
        }
    }
    proof {
        assert(used.deep_view() =~= turn_result(answer@, context@).tools_used);
    }
    TurnResult { answer: answer, tools_used: used, sources: context.sources }
}

/// How a turn ends.
#[derive(Debug)]
pub struct TurnEnd {
    /// The outcome, or why the turn failed.
    pub result: Result<TurnResult, String>,
    /// What is appended to the memory of the session.
    pub remember: Vec<Message>,
}

/// What a turn adds to the memory of a session, given the answer or the failure:
/// the exchange if there is an answer, else nothing.
pub open spec fn remembered(message: Seq<char>, outcome: Result<String, String>) -> Seq<
    MessageView,
> {
    match outcome {
        Ok(a) => seq![plain("user"@, message), plain("assistant"@, a@)],
        Err(_) => Seq::empty(),
    }
}

/// Ends a turn that was answered or has failed.
pub fn end_turn(message: &str, outcome: Result<String, String>, context: Context) -> (r: TurnEnd)
    ensures
        r.remember.deep_view() == remembered(message@, outcome),
        match outcome {
            Ok(a) => r.result matches Ok(t) && t@ == turn_result(a@, context@),
            Err(e) => r.result matches Err(f) && f@ == e@,
        },
{
    match outcome {
        Ok(answer) => {
            let remember = saved_turns(message, answer.as_str());
            TurnEnd { result: Ok(conclude_turn(answer, context)), remember: remember }
        },
        Err(e) => {
            let remember: Vec<Message> = Vec::new();
            proof {
                assert(remember.deep_view() =~= Seq::<MessageView>::empty());
            }
            TurnEnd { result: Err(e), remember: remember }
        },
    }
}

// ── Laws ─────────────────────────────────────────────────────────────────────

/// A turn starts with the instructions and the documents, ends with what the user
/// says, and has the whole conversation in between, in order.
pub proof fn turns_keep_the_conversation(
    c: ContextView,
    history: Seq<MessageView>,
    message: Seq<char>,
)
    ensures
        turn_messages(c, history, message).len() == history.len() + 3,
        turn_messages(c, history, message)[0] == plain("system"@, SYSTEM@),
        turn_messages(c, history, message)[1] == plain("system"@, documents_note(c)),
        turn_messages(c, history, message).subrange(2, history.len() as int + 2) == history,
        turn_messages(c, history, message).last() == plain("user"@, message),
{
    assert(turn_messages(c, history, message).subrange(2, history.len() as int + 2) =~= history);
}

/// Whatever is in the context is sent to the model.
pub proof fn documents_reach_the_model(c: ContextView)
    requires
        c.text.len() > 0,
    ensures
        contains(documents_note(c), c.text),
{
    let head = (if c.truncated {
        EXCERPTS_NOTE@
    } else {
        FULL_NOTE@
    }) + "\n===== DOCUMENTS =====\n"@;
    let note = documents_note(c);
    let i = head.len() as int;
    assert(note.subrange(i, i + c.text.len()) =~= c.text);
    assert(at(note, c.text, i));
}

/// What comes back when a turn is sent.
pub enum Reply {
    /// A reply with a status and a body.
    Replied(u16, Seq<char>),
    /// Nothing: the service could not be reached.
    Lost,
}

/// How far a turn has come.
pub struct TurnRun {
    /// How often it was sent.
    pub sent: int,
    /// It was answered or has failed, and is not sent again.
    pub over: bool,
}

/// A turn after a number of replies.
pub open spec fn turn_run(replies: Seq<Reply>) -> TurnRun
    decreases replies.len(),
{
    if replies.len() == 0 {
        TurnRun { sent: 1, over: false }
    } else {
        let before = turn_run(replies.drop_last());
        if before.over {
            before
        } else {
            match replies.last() {
                Reply::Lost => TurnRun { over: true, ..before },
                Reply::Replied(status, body) => match after_reply(before.sent, status, body) {
                    SendView::Resend(sent, _) => TurnRun { sent: sent, over: false },
                    _ => TurnRun { over: true, ..before },
                },
            }
        }
    }
}

/// A turn is sent at most four times, whatever the service replies: once, and
/// again after each of the first three replies that report a rate limit. After
/// four replies it is over.
pub proof fn retries_end(replies: Seq<Reply>)
    ensures
        1 <= turn_run(replies).sent <= MAX_RETRIES + 1,
        !turn_run(replies).over ==> turn_run(replies).sent == replies.len() + 1,
        replies.len() > MAX_RETRIES ==> turn_run(replies).over,
    decreases replies.len(),
{
    if replies.len() > 0 {
        retries_end(replies.drop_last());
    }
}

} // verus!
