//! What a reader finds in the replies, and what becomes of requests.
use vstd::prelude::*;

use crate::agent::TurnView;
use crate::api::chat::{checked, reply_view, ChatTurn};
use crate::api::config::{
    current, merged, models_view, public_view, unconfigured_view, ConfigPayload,
};
use crate::api::rag::{hit_object, results_view, source_name};
use crate::api::reply::{ok_view, Refusal, RefusalView};
use crate::api::upload::{no_text, rebuilt_view, removed_view, sources_view, uploaded_view};
use crate::config::{
    default_config, key_of, port_of, stored_form, with_secrets, Config, ConfigView, EnvSecrets,
};
use crate::json::{
    error_view, field, field_in, first_in, first_value_in, text_in, uint_in, JsonView,
};
use crate::models::{model_order, named_model, ModelRawView, ModelView};
use crate::numbers::{all_digits, digits_value};
use crate::order::sorted_by;
use crate::rag::types::{HitSource, HitView};
use crate::search::text_before;
use crate::text::{all_white, lemma_trim_empty, trim};

verus! {

// ── Values ───────────────────────────────────────────────────────────────────

/// A field is found under its name, wherever it stands; of several the first; and
/// in a value that is no object, or has none of the name, nothing is found.
pub proof fn fields_are_found_by_name(
    fields: Seq<(Seq<char>, JsonView)>,
    name: Seq<char>,
    i: int,
)
    requires
        0 <= i <= fields.len(),
        forall|k: int| 0 <= k < i ==> (#[trigger] fields[k]).0 != name,
        i < fields.len() ==> fields[i].0 == name,
    ensures
        i < fields.len() ==> field(JsonView::Obj(fields), name) == Some(fields[i].1),
        i == fields.len() ==> field(JsonView::Obj(fields), name) is None,
    decreases i,
{
    if i > 0 {
        assert(fields[0].0 != name);
        let d = fields.drop_first();
        assert forall|k: int| 0 <= k < i - 1 implies (#[trigger] d[k]).0 != name by {
            assert(fields[k + 1].0 != name);
        }
        fields_are_found_by_name(d, name, i - 1);
    }
}

/// Texts, numbers, first items and first values are found in values of their kind,
/// and in no others.
pub proof fn values_are_read_by_kind(j: JsonView, name: Seq<char>)
    ensures
        j is Str ==> text_in(Some(j)) == Some(j->Str_0),
        !(j is Str) ==> text_in(Some(j)) is None,
        j is UInt ==> uint_in(Some(j)) == Some(j->UInt_0),
        !(j is UInt) ==> uint_in(Some(j)) is None,
        j is Arr && j->Arr_0.len() > 0 ==> first_in(Some(j)) == Some(j->Arr_0[0]),
        !(j is Arr && j->Arr_0.len() > 0) ==> first_in(Some(j)) is None,
        j is Obj && j->Obj_0.len() > 0 ==> first_value_in(Some(j)) == Some(j->Obj_0[0].1),
        !(j is Obj && j->Obj_0.len() > 0) ==> first_value_in(Some(j)) is None,
        !(j is Obj) ==> field(j, name) is None,
        field_in(Some(j), name) == field(j, name),
        field_in(None, name) is None,
        text_in(None) is None,
        uint_in(None) is None,
        first_in(None) is None,
        first_value_in(None) is None,
{
}

/// The object has exactly these fields, in this order.
pub open spec fn has_fields(j: JsonView, fields: Seq<(Seq<char>, JsonView)>) -> bool {
    j == JsonView::Obj(fields)
}

// ── Replies ──────────────────────────────────────────────────────────────────

/// The reply of a turn holds the answer, every tool with its detail, every source
/// and the session, each in its order.
pub proof fn turn_replies_hold_the_turn(t: TurnView, session: Seq<char>)
    ensures
        has_fields(
            reply_view(t, session),
            seq![
                ("answer"@, JsonView::Str(t.answer)),
                (
                    "tools_used"@,
                    JsonView::Arr(
                        Seq::new(
                            t.tools_used.len(),
                            |i: int|
                                JsonView::Obj(
                                    seq![
                                        ("tool"@, JsonView::Str(t.tools_used[i].tool)),
                                        ("detail"@, t.tools_used[i].detail),
                                    ],
                                ),
                        ),
                    ),
                ),
                (
                    "sources"@,
                    JsonView::Arr(
                        Seq::new(t.sources.len(), |i: int| JsonView::Str(t.sources[i])),
                    ),
                ),
                ("session_id"@, JsonView::Str(session)),
            ],
        ),
{
    let tools = Seq::new(
        t.tools_used.len(),
        |i: int|
            JsonView::Obj(
                seq![
                    ("tool"@, JsonView::Str(t.tools_used[i].tool)),
                    ("detail"@, t.tools_used[i].detail),
                ],
            ),
    );
    let sources = Seq::new(t.sources.len(), |i: int| JsonView::Str(t.sources[i]));
    let r = reply_view(t, session)->Obj_0;
    assert(r[1].1->Arr_0 =~= tools);
    assert(r[2].1->Arr_0 =~= sources);
}

/// The reply of a search holds every hit, in order, with all that is known of it.
pub proof fn search_replies_hold_the_hits(hits: Seq<HitView>, query: Seq<char>, mode: Seq<char>)
    ensures
        has_fields(
            results_view(hits, query, mode),
            seq![
                (
                    "results"@,
                    JsonView::Arr(
                        Seq::new(
                            hits.len(),
                            |i: int|
                                JsonView::Obj(
                                    seq![
                                        ("text"@, JsonView::Str(hits[i].text)),
                                        ("source"@, JsonView::Str(hits[i].source)),
                                        ("score"@, JsonView::Real(hits[i].score)),
                                        ("document_id"@, JsonView::Str(hits[i].document_id)),
                                        ("chunk_id"@, JsonView::UInt(hits[i].chunk_id as u64)),
                                        (
                                            "retrieval"@,
                                            JsonView::Str(
                                                match hits[i].retrieval {
                                                    HitSource::Keyword => "keyword"@,
                                                    HitSource::Vector => "vector"@,
                                                    HitSource::Hybrid => "hybrid"@,
                                                },
                                            ),
                                        ),
                                    ],
                                ),
                        ),
                    ),
                ),
                ("query"@, JsonView::Str(query)),
                ("mode"@, JsonView::Str(mode)),
            ],
        ),
{
    let items = Seq::new(
        hits.len(),
        |i: int|
            JsonView::Obj(
                seq![
                    ("text"@, JsonView::Str(hits[i].text)),
                    ("source"@, JsonView::Str(hits[i].source)),
                    ("score"@, JsonView::Real(hits[i].score)),
                    ("document_id"@, JsonView::Str(hits[i].document_id)),
                    ("chunk_id"@, JsonView::UInt(hits[i].chunk_id as u64)),
                    (
                        "retrieval"@,
                        JsonView::Str(
                            match hits[i].retrieval {
                                HitSource::Keyword => "keyword"@,
                                HitSource::Vector => "vector"@,
                                HitSource::Hybrid => "hybrid"@,
                            },
                        ),
                    ),
                ],
            ),
    );
    assert forall|i: int| 0 <= i < hits.len() implies hit_object(hits[i]) == #[trigger] items[i] by {
        assert(source_name(hits[i].retrieval) == match hits[i].retrieval {
            HitSource::Keyword => "keyword"@,
            HitSource::Vector => "vector"@,
            HitSource::Hybrid => "hybrid"@,
        });
        assert(hit_object(hits[i])->Obj_0 =~= items[i]->Obj_0);
    }
    assert(results_view(hits, query, mode)->Obj_0[0].1->Arr_0 =~= items);
}

/// The list of documents holds every document with the number of its chunks, in
/// order.
pub proof fn source_replies_hold_the_sources(sources: Seq<(Seq<char>, usize)>)
    ensures
        has_fields(
            sources_view(sources),
            seq![
                (
                    "sources"@,
                    JsonView::Arr(
                        Seq::new(
                            sources.len(),
                            |i: int|
                                JsonView::Obj(
                                    seq![
                                        ("name"@, JsonView::Str(sources[i].0)),
                                        ("chunks"@, JsonView::UInt(sources[i].1 as u64)),
                                    ],
                                ),
                        ),
                    ),
                ),
            ],
        ),
{
    let items = Seq::new(
        sources.len(),
        |i: int|
            JsonView::Obj(
                seq![
                    ("name"@, JsonView::Str(sources[i].0)),
                    ("chunks"@, JsonView::UInt(sources[i].1 as u64)),
                ],
            ),
    );
    assert(sources_view(sources)->Obj_0[0].1->Arr_0 =~= items);
}

/// The list of models holds every model with its id and its name, in order.
pub proof fn model_replies_hold_the_models(models: Seq<ModelView>)
    ensures
        has_fields(
            models_view(models),
            seq![
                (
                    "models"@,
                    JsonView::Arr(
                        Seq::new(
                            models.len(),
                            |i: int|
                                JsonView::Obj(
                                    seq![
                                        ("id"@, JsonView::Str(models[i].id)),
                                        ("name"@, JsonView::Str(models[i].name)),
                                    ],
                                ),
                        ),
                    ),
                ),
            ],
        ),
{
    let items = Seq::new(
        models.len(),
        |i: int|
            JsonView::Obj(
                seq![
                    ("id"@, JsonView::Str(models[i].id)),
                    ("name"@, JsonView::Str(models[i].name)),
                ],
            ),
    );
    assert(models_view(models)->Obj_0[0].1->Arr_0 =~= items);
}

/// The other replies tell what happened, with the numbers and names at hand.
pub proof fn replies_tell_what_happened(filename: Seq<char>, chunks: usize, removed: bool)
    ensures
        has_fields(
            uploaded_view(filename, chunks),
            seq![
                ("ok"@, JsonView::Bool(true)),
                ("name"@, JsonView::Str(filename)),
                ("chunks"@, JsonView::UInt(chunks as u64)),
            ],
        ),
        has_fields(
            rebuilt_view(chunks),
            seq![("ok"@, JsonView::Bool(true)), ("chunks"@, JsonView::UInt(chunks as u64))],
        ),
        has_fields(
            removed_view(removed),
            seq![("ok"@, JsonView::Bool(true)), ("removed"@, JsonView::Bool(removed))],
        ),
        has_fields(ok_view(), seq![("ok"@, JsonView::Bool(true))]),
        has_fields(error_view(filename), seq![("error"@, JsonView::Str(filename))]),
        no_text(filename) == "'"@ + filename
            + "' has no readable text. If it's a scanned PDF, it would need OCR first."@,
{
}

/// The browser sees every setting but the secrets, and of the key whether there
/// is one.
pub proof fn settings_are_shown(c: ConfigView)
    ensures
        has_fields(
            public_view(c),
            seq![
                ("configured"@, JsonView::Bool(true)),
                ("api_base"@, JsonView::Str(c.api_base)),
                ("api_key_set"@, JsonView::Bool(c.api_key.len() > 0)),
                ("model"@, JsonView::Str(c.model)),
                ("embeddings_model"@, JsonView::Str(c.embeddings_model)),
                ("data_dir"@, JsonView::Str(c.data_dir)),
                ("retrieval_mode"@, JsonView::Str(c.retrieval_mode)),
                ("top_k"@, JsonView::UInt(c.top_k as u64)),
                ("min_similarity"@, JsonView::Real(c.min_similarity)),
                ("embedding_model"@, JsonView::Str(c.embedding_model)),
                ("embedding_dim"@, JsonView::UInt(c.embedding_dim as u64)),
            ],
        ),
        has_fields(unconfigured_view(), seq![("configured"@, JsonView::Bool(false))]),
{
}

// ── Requests ─────────────────────────────────────────────────────────────────

/// A chat request is refused before the setup and without a message, in this
/// order; any other is taken with its message trimmed, in its own session or in a
/// new one.
pub proof fn chat_requests_are_taken_or_refused(
    configured: bool,
    message: Seq<char>,
    session: Option<Seq<char>>,
    fresh: Seq<char>,
    r: Result<ChatTurn, Refusal>,
)
    requires
        checked(configured, message, session, fresh, r),
    ensures
        r is Ok <==> configured && !all_white(message),
        !configured ==> r->Err_0@ == (RefusalView {
            status: 412,
            error: "Not configured. Complete setup first."@,
        }),
        configured && all_white(message) ==> r->Err_0@ == (RefusalView {
            status: 400,
            error: "message is required"@,
        }),
        r is Ok ==> r->Ok_0.message@ == trim(message) && r->Ok_0.message@.len() > 0,
        r is Ok && session is Some ==> r->Ok_0.session_id@ == session.unwrap(),
        r is Ok && session is None ==> r->Ok_0.session_id@ == fresh,
{
    lemma_trim_empty(message);
}

// ── Settings ─────────────────────────────────────────────────────────────────

/// A key of the environment counts if it is more than whitespace, and then
/// trimmed.
pub proof fn keys_of_the_environment_are_trimmed(raw: Option<String>)
    ensures
        raw is Some && !all_white(raw.unwrap()@) ==> key_of(raw) == Some(trim(raw.unwrap()@)),
        raw is Some && all_white(raw.unwrap()@) ==> key_of(raw) is None,
        raw is None ==> key_of(raw) is None,
{
    if raw is Some {
        lemma_trim_empty(raw.unwrap()@);
    }
}

/// Secrets of the environment take the place of the two keys and of nothing else;
/// and nothing else is left out when settings are stored.
pub proof fn only_keys_are_replaced(c: ConfigView, env: EnvSecrets)
    ensures
        with_secrets(c, env) == (ConfigView {
            api_key: with_secrets(c, env).api_key,
            embeddings_key: with_secrets(c, env).embeddings_key,
            ..c
        }),
        stored_form(c, env) == (ConfigView {
            api_key: stored_form(c, env).api_key,
            embeddings_key: stored_form(c, env).embeddings_key,
            ..c
        }),
        key_of(env.api_key) is None ==> with_secrets(c, env).api_key == c.api_key && stored_form(
            c,
            env,
        ).api_key == c.api_key,
        key_of(env.embeddings_key) is None ==> with_secrets(c, env).embeddings_key
            == c.embeddings_key && stored_form(c, env).embeddings_key == c.embeddings_key,
        key_of(env.api_key) is Some ==> Some(with_secrets(c, env).api_key) == key_of(env.api_key)
            && stored_form(c, env).api_key.len() == 0,
        key_of(env.embeddings_key) is Some ==> Some(with_secrets(c, env).embeddings_key) == key_of(
            env.embeddings_key,
        ) && stored_form(c, env).embeddings_key.len() == 0,
{
}

/// The port is what the environment says, if that is a number up to 65535; else it
/// is 3000.
pub proof fn ports_are_read(raw: Option<String>, digits: Seq<char>)
    requires
        all_digits(digits),
    ensures
        raw is Some && raw.unwrap()@ == digits && digits_value(digits) <= 65535 ==> port_of(raw)
            == digits_value(digits),
        raw is Some && raw.unwrap()@ == digits && digits_value(digits) > 65535 ==> port_of(raw)
            == 3000,
        raw is Some && crate::numbers::unsigned_value(raw.unwrap()@) is None ==> port_of(raw)
            == 3000,
        raw is None ==> port_of(raw) == 3000,
{
    crate::numbers_laws::only_digits_read_as_numbers(digits, digits);
}

/// Saving takes over what was sent, keys and addresses trimmed. A setting of
/// retrieval that was not sent stays, the data directory stays unless it is empty,
/// and the dimension and the databases always stay.
pub proof fn what_was_sent_is_taken_over(base: ConfigView, p: ConfigPayload)
    ensures
        merged(base, p).api_base == trim(p.api_base@),
        merged(base, p).model == trim(p.model@),
        p.api_key is Some ==> merged(base, p).api_key == trim(p.api_key.unwrap()@),
        p.api_key is None ==> merged(base, p).api_key.len() == 0,
        p.embeddings_base is Some ==> merged(base, p).embeddings_base == trim(
            p.embeddings_base.unwrap()@,
        ),
        p.embeddings_base is None ==> merged(base, p).embeddings_base.len() == 0,
        p.embeddings_key is Some ==> merged(base, p).embeddings_key == trim(
            p.embeddings_key.unwrap()@,
        ),
        p.embeddings_key is None ==> merged(base, p).embeddings_key.len() == 0,
        p.embeddings_model is Some ==> merged(base, p).embeddings_model
            == p.embeddings_model.unwrap()@,
        p.embeddings_model is None ==> merged(base, p).embeddings_model
            == "text-embedding-3-small"@,
        p.retrieval_mode is Some ==> merged(base, p).retrieval_mode == p.retrieval_mode.unwrap()@,
        p.retrieval_mode is None ==> merged(base, p).retrieval_mode == base.retrieval_mode,
        p.top_k is Some ==> merged(base, p).top_k == p.top_k.unwrap(),
        p.top_k is None ==> merged(base, p).top_k == base.top_k,
        p.min_similarity is Some ==> merged(base, p).min_similarity == p.min_similarity.unwrap(),
        p.min_similarity is None ==> merged(base, p).min_similarity == base.min_similarity,
        p.embedding_model is Some ==> merged(base, p).embedding_model
            == p.embedding_model.unwrap()@,
        p.embedding_model is None ==> merged(base, p).embedding_model == base.embedding_model,
        all_white(base.data_dir) ==> merged(base, p).data_dir == "data"@,
        !all_white(base.data_dir) ==> merged(base, p).data_dir == base.data_dir,
        merged(base, p).embedding_dim == base.embedding_dim,
        merged(base, p).vector_db_path == base.vector_db_path,
        merged(base, p).session_db_path == base.session_db_path,
{
    let none: Seq<char> = Seq::empty();
    assert(all_white(none));
    lemma_trim_empty(none);
    lemma_trim_empty(base.data_dir);
}

/// Settings are made of those that are there, or of the defaults where there are
/// none.
pub proof fn settings_start_from_the_current_ones(cfg: Option<Config>)
    ensures
        cfg is Some ==> current(cfg) == cfg.unwrap()@,
        cfg is None ==> current(cfg) == default_config(),
{
}

// ── Models ───────────────────────────────────────────────────────────────────

/// A listed model keeps its id and its name, and is called by its id if it has
/// none; the list is by increasing id.
pub proof fn models_are_listed_by_id(m: ModelRawView, models: Seq<ModelView>, i: int, j: int)
    ensures
        named_model(m).id == m.id,
        m.name is Some ==> named_model(m).name == m.name.unwrap(),
        m.name is None ==> named_model(m).name == m.id,
        0 <= i < j < sorted_by(models, model_order()).len() ==> !text_before(
            sorted_by(models, model_order())[j].id,
            sorted_by(models, model_order())[i].id,
        ),
{
    crate::models::model_lists_are_ordered(models);
    let r = sorted_by(models, model_order());
    if 0 <= i < j < r.len() {
        assert(model_order()(r[i], r[j]));
    }
}

} // verus!
