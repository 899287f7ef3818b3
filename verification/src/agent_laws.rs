//! What a turn sends, how replies are judged, and how a turn ends.
use vstd::prelude::*;
use vstd::utf8::{decode_utf8, encode_utf8};

use crate::agent::{
    after_reply, documents_note, failure, failure_text, first_answer, local_base, number_len, plain,
    remembered, suggested_wait, turn_action, turn_messages, turn_result, unreachable_text,
    ActionView, Failure, MessageView, RetryView, SendView, BAD_KEY, BAD_MODEL, EXCERPTS_NOTE,
    FULL_NOTE, NO_DOCUMENTS, TOO_BIG,
};
use crate::json::JsonView;
use crate::numbers::is_fraction;
use crate::rag::context::ContextView;
use crate::search::{at, contains, first_at};
use crate::text::{lowered, trim_start, white};

verus! {

// ── Messages ─────────────────────────────────────────────────────────────────

/// A plain message has its role and its text, and nothing else.
pub proof fn plain_messages_hold_a_text(role: Seq<char>, text: Seq<char>)
    ensures
        plain(role, text).role == role,
        plain(role, text).content == Some(text),
        plain(role, text).tool_calls is None,
        plain(role, text).tool_call_id is None,
        plain(role, text).name is None,
{
}

/// The documents are sent between two marks, behind a note that says whether they
/// are whole; where there are none the model is told so.
pub proof fn documents_are_sent_between_marks(c: ContextView)
    ensures
        c.text.len() == 0 ==> documents_note(c) == NO_DOCUMENTS@,
        c.text.len() > 0 && !c.truncated ==> documents_note(c) == FULL_NOTE@
            + "\n===== DOCUMENTS =====\n"@ + c.text + "\n===== END DOCUMENTS ====="@,
        c.text.len() > 0 && c.truncated ==> documents_note(c) == EXCERPTS_NOTE@
            + "\n===== DOCUMENTS =====\n"@ + c.text + "\n===== END DOCUMENTS ====="@,
{
}

/// Message number `i` of the conversation is message number `i + 2` of the turn,
/// for every conversation, however long.
pub proof fn the_whole_conversation_is_sent(
    c: ContextView,
    history: Seq<MessageView>,
    message: Seq<char>,
    i: int,
)
    requires
        0 <= i < history.len(),
    ensures
        turn_messages(c, history, message).len() == history.len() + 3,
        turn_messages(c, history, message)[i + 2] == history[i],
        turn_messages(c, history, message)[history.len() as int + 2] == plain("user"@, message),
{
}

// ── Replies ──────────────────────────────────────────────────────────────────

/// A service runs on this machine if and only if its address names it.
pub proof fn local_services_are_told_by_their_address(base: Seq<char>)
    ensures
        local_base(base) <==> contains(base, "localhost"@) || contains(base, "127.0.0.1"@),
{
}

/// Where a service cannot be reached the user is told why, and whether it is the
/// local one.
pub proof fn unreachable_services_are_told_apart(details: Seq<char>)
    ensures
        unreachable_text(true, details)
            == "CONN: I couldn't reach the local AI. Open Settings and switch to Groq (free), or start your local model. (details: "@
            + details + ")"@,
        unreachable_text(false, details)
            == "CONN: I couldn't reach the AI service. Check your internet connection. (details: "@
            + details + ")"@,
{
}

/// A reply speaks of a key that was rejected.
pub open spec fn speaks_of_a_bad_key(status: u16, low: Seq<char>) -> bool {
    status == 401 || status == 403 || contains(low, "invalid api key"@) || contains(
        low,
        "incorrect api key"@,
    ) || contains(low, "unauthorized"@)
}

/// A reply speaks of a model that is not there.
pub open spec fn speaks_of_a_bad_model(low: Seq<char>) -> bool {
    contains(low, "model"@) && (contains(low, "not found"@) || contains(low, "does not exist"@)
        || contains(low, "decommissioned"@))
}

/// A reply speaks of too long a context.
pub open spec fn speaks_of_a_long_context(low: Seq<char>) -> bool {
    contains(low, "context"@) && (contains(low, "length"@) || contains(low, "maximum"@)
        || contains(low, "too large"@) || contains(low, "token"@))
}

/// Failures are told apart by what the reply says: first the key, then the model,
/// then the size; and whatever says none of these is some other failure.
pub proof fn failures_are_told_apart(status: u16, low: Seq<char>)
    ensures
        failure(status, low) == Failure::BadKey <==> speaks_of_a_bad_key(status, low),
        failure(status, low) == Failure::BadModel <==> !speaks_of_a_bad_key(status, low)
            && speaks_of_a_bad_model(low),
        failure(status, low) == Failure::TooBig <==> !speaks_of_a_bad_key(status, low)
            && !speaks_of_a_bad_model(low) && speaks_of_a_long_context(low),
        failure(status, low) == Failure::Other <==> !speaks_of_a_bad_key(status, low)
            && !speaks_of_a_bad_model(low) && !speaks_of_a_long_context(low),
{
}

/// A failure that is told apart has its own answer; any other is passed on with
/// its status and what it says, or the first 300 bytes of that.
pub proof fn failures_are_answered(status: Seq<char>, body: Seq<char>)
    ensures
        failure_text(Failure::BadKey, status, body) == BAD_KEY@,
        failure_text(Failure::BadModel, status, body) == BAD_MODEL@,
        failure_text(Failure::TooBig, status, body) == TOO_BIG@,
        encode_utf8(body).len() <= 300 ==> failure_text(Failure::Other, status, body)
            == "The AI service returned an error ("@ + status + "). "@ + body,
        encode_utf8(body).len() > 300 ==> failure_text(Failure::Other, status, body)
            == "The AI service returned an error ("@ + status + "). "@ + decode_utf8(
            encode_utf8(body).take(300),
        ),
{
}

/// A turn goes on only after a rate limit, and then three times at most; a reply
/// with a status from 200 to 299 is read, whatever it says; any other ends the
/// turn with the failure that it reports.
pub proof fn replies_are_acted_on(sent: int, attempt: u32, status: u16, body: Seq<char>)
    ensures
        after_reply(sent, status, body) is Resend <==> status == 429 && sent <= 3,
        turn_action(status, attempt, body) is WaitAndResend <==> status == 429 && attempt <= 3,
        status == 429 && sent <= 3 ==> after_reply(sent, status, body) == SendView::Resend(
            sent + 1,
            suggested_wait(lowered(body)),
        ),
        status == 429 && attempt <= 3 ==> turn_action(status, attempt, body)
            == ActionView::WaitAndResend(suggested_wait(lowered(body))),
        after_reply(sent, status, body) == SendView::ReadAnswer <==> 200 <= status <= 299,
        turn_action(status, attempt, body) == ActionView::ReadAnswer <==> 200 <= status <= 299,
        !(200 <= status <= 299) && !(status == 429 && sent <= 3) ==> after_reply(
            sent,
            status,
            body,
        ) == SendView::Fail(failure(status, lowered(body))),
        !(200 <= status <= 299) && !(status == 429 && attempt <= 3) ==> turn_action(
            status,
            attempt,
            body,
        ) == ActionView::Fail(failure(status, lowered(body))),
{
}

// ── Waiting ──────────────────────────────────────────────────────────────────

/// A digit or a point.
pub open spec fn in_number(c: char) -> bool {
    '0' <= c <= '9' || c == '.'
}

proof fn lemma_number_len(s: Seq<char>, n: int)
    requires
        0 <= n <= s.len(),
        forall|i: int| 0 <= i < n ==> in_number(#[trigger] s[i]),
        n < s.len() ==> !in_number(s[n]),
    ensures
        number_len(s) == n,
    decreases n,
{
    if n > 0 {
        assert(in_number(s[0]));
        let d = s.drop_first();
        assert forall|i: int| 0 <= i < n - 1 implies in_number(#[trigger] d[i]) by {
            assert(in_number(s[i + 1]));
        }
        lemma_number_len(d, n - 1);
    }
}

proof fn lemma_trim_start_is(s: Seq<char>, a: int)
    requires
        0 <= a <= s.len(),
        forall|i: int| 0 <= i < a ==> white(#[trigger] s[i]),
        a < s.len() ==> !white(s[a]),
    ensures
        trim_start(s) == s.skip(a),
{
    crate::text::lemma_trim_start(s);
    let x = s.len() - trim_start(s).len();
    if x < a {
        assert(trim_start(s).first() == s[x]);
    }
    if x > a {
        assert(white(s[a]));
    }
}

/// The wait that a reply asks for is read behind its first "try again in": past
/// whitespace, the digits and points that follow, if they read as a number; in
/// milliseconds if "ms" stands behind them, past whitespace, else in seconds.
pub proof fn waits_are_read_behind_the_phrase(
    low: Seq<char>,
    i: int,
    gap: Seq<char>,
    digits: Seq<char>,
    space: Seq<char>,
    rest: Seq<char>,
)
    requires
        first_at(low, "try again in"@) == Some(i),
        0 <= i <= low.len() - "try again in"@.len(),
        low.skip(i + "try again in"@.len()) == gap + digits + space + rest,
        forall|k: int| 0 <= k < gap.len() ==> white(#[trigger] gap[k]),
        forall|k: int| 0 <= k < digits.len() ==> in_number(#[trigger] digits[k]),
        digits.len() > 0,
        forall|k: int| 0 <= k < space.len() ==> white(#[trigger] space[k]),
        rest.len() > 0 ==> !white(rest[0]),
        space.len() == 0 && rest.len() > 0 ==> !in_number(rest[0]),
    ensures
        is_fraction(digits) ==> suggested_wait(low) == Some(
            RetryView { number: digits, millis: "ms"@.is_prefix_of(rest) },
        ),
        !is_fraction(digits) ==> suggested_wait(low) is None,
{
    let all = gap + digits + space + rest;
    let tail = digits + space + rest;
    let n = digits.len() as int;
    assert(in_number(digits[0]));
    assert(all[gap.len() as int] == digits[0]);
    assert forall|k: int| 0 <= k < gap.len() implies white(#[trigger] all[k]) by {
        assert(all[k] == gap[k]);
    }
    lemma_trim_start_is(all, gap.len() as int);
    assert(all.skip(gap.len() as int) =~= tail);
    assert forall|k: int| 0 <= k < n implies in_number(#[trigger] tail[k]) by {
        assert(tail[k] == digits[k]);
    }
    if n < tail.len() {
        if space.len() > 0 {
            assert(tail[n] == space[0]);
            assert(white(space[0]));
        } else {
            assert(tail[n] == rest[0]);
        }
    }
    lemma_number_len(tail, n);
    assert(tail.take(n) =~= digits);
    let behind = tail.skip(n);
    assert(behind =~= space + rest);
    assert forall|k: int| 0 <= k < space.len() implies white(#[trigger] behind[k]) by {
        assert(behind[k] == space[k]);
    }
    if space.len() < behind.len() {
        assert(behind[space.len() as int] == rest[0]);
    }
    lemma_trim_start_is(behind, space.len() as int);
    assert(behind.skip(space.len() as int) =~= rest);
    crate::search_laws::containing_is_having_a_part(rest, "ms"@);
}

/// A reply without the phrase asks for no wait, and neither does one that has no
/// number behind it.
pub proof fn other_replies_ask_for_no_wait(low: Seq<char>, i: int, gap: Seq<char>, rest: Seq<char>)
    ensures
        !contains(low, "try again in"@) ==> suggested_wait(low) is None,
        first_at(low, "try again in"@) == Some(i) && low.skip(i + "try again in"@.len()) == gap
            + rest && (forall|k: int| 0 <= k < gap.len() ==> white(#[trigger] gap[k])) && (
        rest.len() > 0 ==> !white(rest[0]) && !in_number(rest[0])) ==> suggested_wait(low) is None,
{
    if first_at(low, "try again in"@) == Some(i) && low.skip(i + "try again in"@.len()) == gap
        + rest && (forall|k: int| 0 <= k < gap.len() ==> white(#[trigger] gap[k])) && (rest.len() > 0
        ==> !white(rest[0]) && !in_number(rest[0])) {
        let all = gap + rest;
        assert forall|k: int| 0 <= k < gap.len() implies white(#[trigger] all[k]) by {
            assert(all[k] == gap[k]);
        }
        if gap.len() < all.len() {
            assert(all[gap.len() as int] == rest[0]);
        }
        lemma_trim_start_is(all, gap.len() as int);
        assert(all.skip(gap.len() as int) =~= rest);
        lemma_number_len(rest, 0);
        assert(rest.take(0).len() == 0);
    }
}

// ── Results ──────────────────────────────────────────────────────────────────

/// The answer is the content of the first choice, and empty where there is none.
pub proof fn the_first_choice_is_the_answer(choices: Seq<Option<Seq<char>>>, t: Seq<char>)
    ensures
        choices.len() > 0 && choices[0] == Some(t) ==> first_answer(choices) == t,
        choices.len() > 0 && choices[0] is None ==> first_answer(choices).len() == 0,
        choices.len() == 0 ==> first_answer(choices).len() == 0,
{
}

/// A turn reports the answer and the documents that were in its context; where
/// there were any it reports them as a tool, with their names and whether they
/// were cut.
pub proof fn turns_report_their_documents(answer: Seq<char>, c: ContextView)
    ensures
        turn_result(answer, c).answer == answer,
        turn_result(answer, c).sources == c.sources,
        c.sources.len() == 0 <==> turn_result(answer, c).tools_used.len() == 0,
        c.sources.len() > 0 ==> {
            let used = turn_result(answer, c).tools_used;
            &&& used.len() == 1
            &&& used[0].tool == "documents"@
            &&& used[0].detail == JsonView::Obj(
                seq![
                    (
                        "in_context"@,
                        JsonView::Arr(c.sources.map_values(|s: Seq<char>| JsonView::Str(s))),
                    ),
                    ("truncated"@, JsonView::Bool(c.truncated)),
                ],
            )
        },
{
}

/// A turn that was answered is remembered as what the user said and what was
/// answered; one that failed is not remembered.
pub proof fn only_answered_turns_are_remembered(message: Seq<char>, outcome: Result<String, String>)
    ensures
        outcome is Ok ==> remembered(message, outcome) == seq![
            plain("user"@, message),
            plain("assistant"@, outcome->Ok_0@),
        ],
        outcome is Err ==> remembered(message, outcome).len() == 0,
{
}

} // verus!
