//! `POST /api/rag`: a search without the model.
use vstd::prelude::*;

use crate::api::reply::{Refusal, RefusalView, BAD_REQUEST, INTERNAL_SERVER_ERROR, PRECONDITION_FAILED};
use crate::json::{array, items_view, object, put, string, Json, JsonView};
use crate::rag::types::{Hit, HitSource, HitView};
use crate::text::{all_white, lemma_trim_empty, trim, trimmed};

verus! {

/// What the browser sends.
#[derive(Debug)]
pub struct RagRequest {
    pub query: String,
}

/// Checks a request. Returns the query to search for.
pub fn check(configured: bool, req: &RagRequest) -> (r: Result<String, Refusal>)
    ensures
        if !configured {
            r matches Err(e) && e@ == (RefusalView {
                status: PRECONDITION_FAILED,
                error: "Not configured."@,
            })
        } else if all_white(req.query@) {
            r matches Err(e) && e@ == (RefusalView {
                status: BAD_REQUEST,
                error: "query is required"@,
            })
        } else {
            r matches Ok(q) && q@ == trim(req.query@)
        },
{
    proof {
        lemma_trim_empty(req.query@);
    }
    if !configured {
        return Err(Refusal::new(PRECONDITION_FAILED, "Not configured."));
    }
    let query = trimmed(req.query.as_str());
    if query.as_str().is_empty() {
        return Err(Refusal::new(BAD_REQUEST, "query is required"));
    }
    Ok(query)
}

/// The word for the layer that surfaced a hit, in a reply.
pub open spec fn source_name(s: HitSource) -> Seq<char> {
    match s {
        HitSource::Keyword => "keyword"@,
        HitSource::Vector => "vector"@,
        HitSource::Hybrid => "hybrid"@,
    }
}

/// One hit in a reply.
pub open spec fn hit_object(h: HitView) -> JsonView {
    JsonView::Obj(
        seq![
            ("text"@, JsonView::Str(h.text)),
            ("source"@, JsonView::Str(h.source)),
            ("score"@, JsonView::Real(h.score)),
            ("document_id"@, JsonView::Str(h.document_id)),
            ("chunk_id"@, JsonView::UInt(h.chunk_id as u64)),
            ("retrieval"@, JsonView::Str(source_name(h.retrieval))),
        ],
    )
}

/// The reply of a search.
pub open spec fn results_view(hits: Seq<HitView>, query: Seq<char>, mode: Seq<char>) -> JsonView {
    JsonView::Obj(
        seq![
            ("results"@, JsonView::Arr(hits.map_values(|h: HitView| hit_object(h)))),
            ("query"@, JsonView::Str(query)),
            ("mode"@, JsonView::Str(mode)),
        ],
    )
}

/// The reply of a search, `mode` being the mode that the settings ask for.
pub fn results_reply(hits: &[Hit], query: &str, mode: &str) -> (r: Json)
    ensures
        r@ == results_view(hits.deep_view(), query@, mode@),
{
    let ghost all = hits.deep_view();
    let mut items: Vec<Json> = Vec::new();
    let mut i: usize = 0;
    while i < hits.len()
        invariant
            i <= hits@.len(),
            all == hits.deep_view(),
            all.len() == hits@.len(),
            items@.len() == i,
            forall|k: int| 0 <= k < i ==> (#[trigger] items@[k])@ == hit_object(all[k]),
        decreases hits@.len() - i,
    {
        let h = &hits[i];
        let layer = match h.retrieval {
            HitSource::Keyword => string("keyword"),
            HitSource::Vector => string("vector"),
            HitSource::Hybrid => string("hybrid"),
        };
        let mut fields: Vec<(String, Json)> = Vec::new();
        put(&mut fields, "text", string(h.text.as_str()));
        put(&mut fields, "source", string(h.source.as_str()));
        put(&mut fields, "score", Json::Real(h.score));
        put(&mut fields, "document_id", string(h.document_id.as_str()));
        put(&mut fields, "chunk_id", Json::UInt(h.chunk_id as u64));
        put(&mut fields, "retrieval", layer);
        let o = object(fields);
        proof {
            assert(all[i as int] == h@);
            assert(o@->Obj_0 =~= hit_object(h@)->Obj_0);
        }
        items.push(o);
        i = i + 1;
    }
    let ghost list = items_view(items@);
    let mut fields: Vec<(String, Json)> = Vec::new();
    put(&mut fields, "results", array(items));
    put(&mut fields, "query", string(query));
    put(&mut fields, "mode", string(mode));
    let r = object(fields);
    proof {
        assert(list =~= all.map_values(|h: HitView| hit_object(h)));
        assert(r@->Obj_0 =~= results_view(all, query@, mode@)->Obj_0);
    }
    r
}

/// The refusal of a search that failed.
pub fn failed(error: &str) -> (r: Refusal)
    ensures
        r@ == (RefusalView { status: INTERNAL_SERVER_ERROR, error: error@ }),
{
    Refusal::new(INTERNAL_SERVER_ERROR, error)
}

} // verus!
