//! `POST /api/chat`: one turn of a conversation.
use vstd::prelude::*;

use crate::agent::{ToolUsed, ToolUsedView, TurnResult, TurnView};
use crate::api::reply::{Refusal, RefusalView, BAD_REQUEST, INTERNAL_SERVER_ERROR, PRECONDITION_FAILED};
use crate::json::{
    array, items_view, object, put, string, strings, strings_view, Json, JsonView,
};
use crate::numbers::is_hex_lower;
use crate::text::{all_white, lemma_trim_empty, opt_text, trim, trimmed};

verus! {

/// What the browser sends.
#[derive(Debug)]
pub struct ChatRequest {
    pub message: String,
    pub session_id: Option<String>,
}

/// A turn that is ready to be taken.
#[derive(Debug)]
pub struct ChatTurn {
    pub message: String,
    pub session_id: String,
}

/// The text of a random UUID: five groups of hexadecimal digits in lower case,
/// with the version and the variant in their places.
pub open spec fn is_uuid_v4(s: Seq<char>) -> bool {
    &&& s.len() == 36
    &&& forall|i: int|
        0 <= i < 36 ==> if i == 8 || i == 13 || i == 18 || i == 23 {
            #[trigger] s[i] == '-'
        } else {
            is_hex_lower(s[i])
        }
    &&& s[14] == '4'
    &&& s[19] == '8' || s[19] == '9' || s[19] == 'a' || s[19] == 'b'
}

/// `uuid::Uuid::new_v4` in its hyphenated form, of which the shape is claimed. Its
/// digits are random; that two ids differ is likely and not claimed. The call
/// panics if the operating system has no randomness to give, which depends on no
/// argument.
#[verifier::external_body]
fn random_id() -> (r: String)
    ensures
        is_uuid_v4(r@),
{
    uuid::Uuid::new_v4().to_string()
}

/// A checked request with the id of its session, `fresh` being the id that a new
/// session gets.
pub open spec fn checked(
    configured: bool,
    message: Seq<char>,
    session: Option<Seq<char>>,
    fresh: Seq<char>,
    r: Result<ChatTurn, Refusal>,
) -> bool {
    if !configured {
        r matches Err(e) && e@ == (RefusalView {
            status: PRECONDITION_FAILED,
            error: "Not configured. Complete setup first."@,
        })
    } else if all_white(message) {
        r matches Err(e) && e@ == (RefusalView {
            status: BAD_REQUEST,
            error: "message is required"@,
        })
    } else {
        r matches Ok(t) && t.message@ == trim(message) && t.session_id@ == match session {
            Some(s) => s,
            None => fresh,
        }
    }
}

/// Checks a request, given the id that a new session gets.
pub fn check_with(configured: bool, req: &ChatRequest, fresh: String) -> (r: Result<
    ChatTurn,
    Refusal,
>)
    ensures
        checked(configured, req.message@, opt_text(req.session_id), fresh@, r),
{
    proof {
        lemma_trim_empty(req.message@);
    }
    if !configured {
        return Err(Refusal::new(PRECONDITION_FAILED, "Not configured. Complete setup first."));
    }
    let message = trimmed(req.message.as_str());
    if message.as_str().is_empty() {
        return Err(Refusal::new(BAD_REQUEST, "message is required"));
    }
    let session_id = match &req.session_id {
        Some(s) => s.clone(),
        None => fresh,
    };
    Ok(ChatTurn { message: message, session_id: session_id })
}

/// Checks a request. A request without a session starts a new one under a random
/// id.
pub fn check(configured: bool, req: &ChatRequest) -> (r: Result<ChatTurn, Refusal>)
    ensures
        exists|fresh: Seq<char>|
            is_uuid_v4(fresh) && #[trigger] checked(
                configured,
                req.message@,
                opt_text(req.session_id),
                fresh,
                r,
            ),
{
    let fresh = random_id();
    let ghost f = fresh@;
    let r = check_with(configured, req, fresh);
    proof {
        assert(checked(configured, req.message@, opt_text(req.session_id), f, r));
    }
    r
}

/// A tool that took part in an answer, in a reply.
pub open spec fn used_view(u: ToolUsedView) -> JsonView {
    JsonView::Obj(seq![("tool"@, JsonView::Str(u.tool)), ("detail"@, u.detail)])
}

/// The reply of a turn.
pub open spec fn reply_view(t: TurnView, session: Seq<char>) -> JsonView {
    JsonView::Obj(
        seq![
            ("answer"@, JsonView::Str(t.answer)),
            (
                "tools_used"@,
                JsonView::Arr(t.tools_used.map_values(|u: ToolUsedView| used_view(u))),
            ),
            ("sources"@, strings_view(t.sources)),
            ("session_id"@, JsonView::Str(session)),
        ],
    )
}

fn used_objects(tools: Vec<ToolUsed>) -> (r: Json)
    ensures
        r@ == JsonView::Arr(tools.deep_view().map_values(|u: ToolUsedView| used_view(u))),
{
    let ghost all = tools.deep_view();
    let mut items: Vec<Json> = Vec::new();
    for u in it: tools
        invariant
            all.len() == it.seq().len(),
            forall|k: int| 0 <= k < all.len() ==> all[k] == (#[trigger] it.seq()[k]).deep_view(),
            items@.len() == it.index(),
            forall|k: int| 0 <= k < it.index() ==> (#[trigger] items@[k])@ == used_view(all[k]),
    {
        let mut fields: Vec<(String, Json)> = Vec::new();
        put(&mut fields, "tool", string(u.tool.as_str()));
        put(&mut fields, "detail", u.detail);
        let o = object(fields);
        proof {
            assert(o@->Obj_0 =~= used_view(u.deep_view())->Obj_0);
        }
        items.push(o);
    }
    proof {
        assert(items_view(items@) =~= all.map_values(|u: ToolUsedView| used_view(u)));
    }
    array(items)
}

/// The reply of a turn.
pub fn reply(result: TurnResult, session_id: &str) -> (r: Json)
    ensures
        r@ == reply_view(result@, session_id@),
{
    let mut fields: Vec<(String, Json)> = Vec::new();
    let ghost t = result@;
    put(&mut fields, "answer", string(result.answer.as_str()));
    let sources = strings(&result.sources);
    put(&mut fields, "tools_used", used_objects(result.tools_used));
    put(&mut fields, "sources", sources);
    put(&mut fields, "session_id", string(session_id));
    let r = object(fields);
    proof {
        assert(r@->Obj_0 =~= reply_view(t, session_id@)->Obj_0);
    }
    r
}

/// The refusal of a turn that failed.
pub fn failed(error: &str) -> (r: Refusal)
    ensures
        r@ == (RefusalView { status: INTERNAL_SERVER_ERROR, error: error@ }),
{
    Refusal::new(INTERNAL_SERVER_ERROR, error)
}

} // verus!
