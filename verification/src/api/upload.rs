//! `POST /api/upload`, `GET /api/sources`, `POST /api/remove` and
//! `POST /api/rebuild`: the documents.
use vstd::prelude::*;

use crate::api::reply::{Refusal, RefusalView, BAD_REQUEST, INTERNAL_SERVER_ERROR, PRECONDITION_FAILED};
use crate::json::{array, items_view, object, put, string, Json, JsonView};
use crate::text::{all_white, lemma_trim_empty, trim, trimmed};

verus! {

// ── Uploading ────────────────────────────────────────────────────────────────

/// What the browser sends.
#[derive(Debug)]
pub struct UploadPayload {
    pub filename: String,
    pub text: String,
}

/// A document that is ready to be indexed.
#[derive(Debug)]
pub struct Upload {
    pub filename: String,
    pub text: String,
}

/// What is said of a document without text.
pub open spec fn no_text(filename: Seq<char>) -> Seq<char> {
    "'"@ + filename
        + "' has no readable text. If it's a scanned PDF, it would need OCR first."@
}

/// Checks an upload.
pub fn check(configured: bool, payload: &UploadPayload) -> (r: Result<Upload, Refusal>)
    ensures
        if !configured {
            r matches Err(e) && e@ == (RefusalView {
                status: PRECONDITION_FAILED,
                error: "Not ready yet. Try again in a moment."@,
            })
        } else if all_white(payload.filename@) {
            r matches Err(e) && e@ == (RefusalView {
                status: BAD_REQUEST,
                error: "Missing file name."@,
            })
        } else if all_white(payload.text@) {
            r matches Err(e) && e@ == (RefusalView {
                status: BAD_REQUEST,
                error: no_text(trim(payload.filename@)),
            })
        } else {
            r matches Ok(u) && u.filename@ == trim(payload.filename@) && u.text@ == trim(
                payload.text@,
            )
        },
{
    proof {
        lemma_trim_empty(payload.filename@);
        lemma_trim_empty(payload.text@);
    }
    if !configured {
        return Err(Refusal::new(PRECONDITION_FAILED, "Not ready yet. Try again in a moment."));
    }
    let filename = trimmed(payload.filename.as_str());
    let text = trimmed(payload.text.as_str());
    if filename.as_str().is_empty() {
        return Err(Refusal::new(BAD_REQUEST, "Missing file name."));
    }
    if text.as_str().is_empty() {
        let mut error = "'".to_owned();
        error.push_str(filename.as_str());
        error.push_str("' has no readable text. If it's a scanned PDF, it would need OCR first.");
        return Err(Refusal { status: BAD_REQUEST, error: error });
    }
    Ok(Upload { filename: filename, text: text })
}

/// The reply of an upload: the name of the document and the number of its chunks.
pub open spec fn uploaded_view(filename: Seq<char>, chunks: usize) -> JsonView {
    JsonView::Obj(
        seq![
            ("ok"@, JsonView::Bool(true)),
            ("name"@, JsonView::Str(filename)),
            ("chunks"@, JsonView::UInt(chunks as u64)),
        ],
    )
}

/// The reply of an upload: the name of the document and the number of its chunks.
pub fn uploaded(filename: &str, chunks: usize) -> (r: Json)
    ensures
        r@ == uploaded_view(filename@, chunks),
{
    let mut fields: Vec<(String, Json)> = Vec::new();
    put(&mut fields, "ok", Json::Bool(true));
    put(&mut fields, "name", string(filename));
    put(&mut fields, "chunks", Json::UInt(chunks as u64));
    let r = object(fields);
    proof {
        assert(r@->Obj_0 =~= uploaded_view(filename@, chunks)->Obj_0);
    }
    r
}

/// The refusal of an upload that failed.
pub fn upload_failed(filename: &str, error: &str) -> (r: Refusal)
    ensures
        r@ == (RefusalView {
            status: INTERNAL_SERVER_ERROR,
            error: "Could not index '"@ + filename@ + "': "@ + error@,
        }),
{
    let mut m = "Could not index '".to_owned();
    m.push_str(filename);
    m.push_str("': ");
    m.push_str(error);
    Refusal { status: INTERNAL_SERVER_ERROR, error: m }
}

// ── Listing and removing ─────────────────────────────────────────────────────

/// One document in a reply.
pub open spec fn source_object(s: (Seq<char>, usize)) -> JsonView {
    JsonView::Obj(
        seq![("name"@, JsonView::Str(s.0)), ("chunks"@, JsonView::UInt(s.1 as u64))],
    )
}

/// The documents in a reply.
pub open spec fn sources_view(sources: Seq<(Seq<char>, usize)>) -> JsonView {
    JsonView::Obj(
        seq![
            (
                "sources"@,
                JsonView::Arr(sources.map_values(|s: (Seq<char>, usize)| source_object(s))),
            ),
        ],
    )
}

/// The documents in a reply, each with the number of its chunks.
pub fn sources_reply(sources: &[(String, usize)]) -> (r: Json)
    ensures
        r@ == sources_view(sources.deep_view()),
{
    let ghost all = sources.deep_view();
    let mut items: Vec<Json> = Vec::new();
    let mut i: usize = 0;
    while i < sources.len()
        invariant
            i <= sources@.len(),
            all == sources.deep_view(),
            all.len() == sources@.len(),
            items@.len() == i,
            forall|k: int| 0 <= k < i ==> (#[trigger] items@[k])@ == source_object(all[k]),
        decreases sources@.len() - i,
    {
        let mut fields: Vec<(String, Json)> = Vec::new();
        put(&mut fields, "name", string(sources[i].0.as_str()));
        put(&mut fields, "chunks", Json::UInt(sources[i].1 as u64));
        let o = object(fields);
        proof {
            assert(all[i as int] == (sources@[i as int].0@, sources@[i as int].1));
            assert(o@->Obj_0 =~= source_object(all[i as int])->Obj_0);
        }
        items.push(o);
        i = i + 1;
    }
    let ghost list = items_view(items@);
    let mut fields: Vec<(String, Json)> = Vec::new();
    put(&mut fields, "sources", array(items));
    let r = object(fields);
    proof {
        assert(list =~= all.map_values(|s: (Seq<char>, usize)| source_object(s)));
        assert(r@->Obj_0 =~= sources_view(all)->Obj_0);
    }
    r
}

/// Which document to remove.
#[derive(Debug)]
pub struct RemovePayload {
    pub name: String,
}

/// The reply of a removal: whether there was such a document.
pub open spec fn removed_view(removed: bool) -> JsonView {
    JsonView::Obj(seq![("ok"@, JsonView::Bool(true)), ("removed"@, JsonView::Bool(removed))])
}

/// The reply of a removal: whether there was such a document.
pub fn removed_reply(removed: bool) -> (r: Json)
    ensures
        r@ == removed_view(removed),
{
    let mut fields: Vec<(String, Json)> = Vec::new();
    put(&mut fields, "ok", Json::Bool(true));
    put(&mut fields, "removed", Json::Bool(removed));
    let r = object(fields);
    proof {
        assert(r@->Obj_0 =~= removed_view(removed)->Obj_0);
    }
    r
}

// ── Rebuilding ───────────────────────────────────────────────────────────────

/// Checks whether the index can be rebuilt at all.
pub fn check_rebuild(configured: bool) -> (r: Result<(), Refusal>)
    ensures
        match r {
            Ok(()) => configured,
            Err(e) => !configured && e@ == (RefusalView {
                status: PRECONDITION_FAILED,
                error: "Not configured."@,
            }),
        },
{
    if configured {
        Ok(())
    } else {
        Err(Refusal::new(PRECONDITION_FAILED, "Not configured."))
    }
}

/// The reply of a rebuild: how many chunks there are.
pub open spec fn rebuilt_view(chunks: usize) -> JsonView {
    JsonView::Obj(seq![("ok"@, JsonView::Bool(true)), ("chunks"@, JsonView::UInt(chunks as u64))])
}

/// The reply of a rebuild: how many chunks there are.
pub fn rebuilt(chunks: usize) -> (r: Json)
    ensures
        r@ == rebuilt_view(chunks),
{
    let mut fields: Vec<(String, Json)> = Vec::new();
    put(&mut fields, "ok", Json::Bool(true));
    put(&mut fields, "chunks", Json::UInt(chunks as u64));
    let r = object(fields);
    proof {
        assert(r@->Obj_0 =~= rebuilt_view(chunks)->Obj_0);
    }
    r
}

/// The refusal of a rebuild that failed.
pub fn rebuild_failed(error: &str) -> (r: Refusal)
    ensures
        r@ == (RefusalView {
            status: INTERNAL_SERVER_ERROR,
            error: "Rebuild failed: "@ + error@,
        }),
{
    Refusal::because(INTERNAL_SERVER_ERROR, "Rebuild failed: ", error)
}

} // verus!
