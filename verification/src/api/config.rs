//! `GET` and `POST /api/config`, and `GET /api/models`: the settings.
use vstd::prelude::*;

use crate::api::reply::{Refusal, RefusalView, BAD_GATEWAY, BAD_REQUEST, INTERNAL_SERVER_ERROR};
use crate::config::{default_config, with_secrets, Config, ConfigView, EnvSecrets};
use crate::json::{array, items_view, object, put, string, Json, JsonView};
use crate::models::{Model, ModelView};
use crate::rag::score::Score;
use crate::text::{trim, trimmed};

verus! {

// ── Reading ──────────────────────────────────────────────────────────────────

/// The settings as the browser sees them. Of the key only whether there is one.
pub open spec fn public_view(c: ConfigView) -> JsonView {
    JsonView::Obj(
        seq![
            ("configured"@, JsonView::Bool(true)),
            ("api_base"@, JsonView::Str(c.api_base)),
            ("api_key_set"@, JsonView::Bool(c.api_key.len() > 0)),
            ("model"@, JsonView::Str(c.model)),
            ("embeddings_model"@, JsonView::Str(c.embeddings_model)),
            ("data_dir"@, JsonView::Str(c.data_dir)),
            ("retrieval_mode"@, JsonView::Str(c.retrieval_mode)),
            ("top_k"@, JsonView::UInt(c.top_k as u64)),
            ("min_similarity"@, JsonView::Real(c.min_similarity)),
            ("embedding_model"@, JsonView::Str(c.embedding_model)),
            ("embedding_dim"@, JsonView::UInt(c.embedding_dim as u64)),
        ],
    )
}

/// What the browser sees before there are settings.
pub open spec fn unconfigured_view() -> JsonView {
    JsonView::Obj(seq![("configured"@, JsonView::Bool(false))])
}

/// The settings as the browser sees them.
pub fn get_config(cfg: &Option<Config>) -> (r: Json)
    ensures
        r@ == match *cfg {
            Some(c) => public_view(c@),
            None => unconfigured_view(),
        },
{
    let mut fields: Vec<(String, Json)> = Vec::new();
    match cfg {
        None => {
            put(&mut fields, "configured", Json::Bool(false));
            let r = object(fields);
            proof {
                assert(r@->Obj_0 =~= unconfigured_view()->Obj_0);
            }
            r
        },
        Some(c) => {
            put(&mut fields, "configured", Json::Bool(true));
            put(&mut fields, "api_base", string(c.api_base.as_str()));
            put(&mut fields, "api_key_set", Json::Bool(!c.api_key.as_str().is_empty()));
            put(&mut fields, "model", string(c.model.as_str()));
            put(&mut fields, "embeddings_model", string(c.embeddings_model.as_str()));
            put(&mut fields, "data_dir", string(c.data_dir.as_str()));
            put(&mut fields, "retrieval_mode", string(c.retrieval_mode.as_str()));
            put(&mut fields, "top_k", Json::UInt(c.top_k as u64));
            put(&mut fields, "min_similarity", Json::Real(c.min_similarity));
            put(&mut fields, "embedding_model", string(c.embedding_model.as_str()));
            put(&mut fields, "embedding_dim", Json::UInt(c.embedding_dim as u64));
            let r = object(fields);
            proof {
                assert(r@->Obj_0 =~= public_view(c@)->Obj_0);
            }
            r
        },
    }
}

// ── Writing ──────────────────────────────────────────────────────────────────

/// The settings that the browser sends. Those of retrieval that are left out keep
/// their value.
#[derive(Debug)]
pub struct ConfigPayload {
    pub api_base: String,
    pub api_key: Option<String>,
    pub model: String,
    pub embeddings_base: Option<String>,
    pub embeddings_model: Option<String>,
    pub embeddings_key: Option<String>,
    pub retrieval_mode: Option<String>,
    pub top_k: Option<usize>,
    pub min_similarity: Option<Score>,
    pub embedding_model: Option<String>,
}

/// A text that was sent, or another in its place.
pub open spec fn sent_or(sent: Option<String>, other: Seq<char>) -> Seq<char> {
    match sent {
        Some(s) => s@,
        None => other,
    }
}

/// A value that was sent, or another in its place.
pub open spec fn value_or<A>(sent: Option<A>, other: A) -> A {
    match sent {
        Some(v) => v,
        None => other,
    }
}

/// The settings that a payload makes of the current ones, before secrets.
pub open spec fn merged(base: ConfigView, p: ConfigPayload) -> ConfigView {
    ConfigView {
        api_base: trim(p.api_base@),
        api_key: trim(sent_or(p.api_key, Seq::empty())),
        model: trim(p.model@),
        embeddings_base: trim(sent_or(p.embeddings_base, Seq::empty())),
        embeddings_model: sent_or(p.embeddings_model, "text-embedding-3-small"@),
        embeddings_key: trim(sent_or(p.embeddings_key, Seq::empty())),
        data_dir: if trim(base.data_dir).len() == 0 {
            "data"@
        } else {
            base.data_dir
        },
        retrieval_mode: sent_or(p.retrieval_mode, base.retrieval_mode),
        top_k: value_or(p.top_k, base.top_k),
        min_similarity: value_or(p.min_similarity, base.min_similarity),
        embedding_model: sent_or(p.embedding_model, base.embedding_model),
        embedding_dim: base.embedding_dim,
        vector_db_path: base.vector_db_path,
        session_db_path: base.session_db_path,
    }
}

/// The settings that are current: the defaults before there are any.
pub open spec fn current(cfg: Option<Config>) -> ConfigView {
    match cfg {
        Some(c) => c@,
        None => default_config(),
    }
}

fn sent_trimmed(sent: &Option<String>) -> (r: String)
    ensures
        r@ == trim(sent_or(*sent, Seq::empty())),
{
    match sent {
        Some(s) => trimmed(s.as_str()),
        None => {
            proof {
                let none: Seq<char> = Seq::empty();
                assert(trim(none) == none);
            }
            String::new()
        },
    }
}

fn sent_text(sent: &Option<String>, other: &str) -> (r: String)
    ensures
        r@ == sent_or(*sent, other@),
{
    match sent {
        Some(s) => s.clone(),
        None => other.to_owned(),
    }
}

/// The settings that a payload makes of the current ones. A secret from the
/// environment always wins over one that was sent.
pub fn new_config(cfg: &Option<Config>, payload: &ConfigPayload, env: &EnvSecrets) -> (r: Config)
    ensures
        r@ == with_secrets(merged(current(*cfg), *payload), *env),
{
    let base = match cfg {
        Some(c) => c.clone(),
        None => Config::default(),
    };
    let dir = trimmed(base.data_dir.as_str());
    let mut new = Config {
        api_base: trimmed(payload.api_base.as_str()),
        api_key: sent_trimmed(&payload.api_key),
        model: trimmed(payload.model.as_str()),
        embeddings_base: sent_trimmed(&payload.embeddings_base),
        embeddings_model: sent_text(&payload.embeddings_model, "text-embedding-3-small"),
        embeddings_key: sent_trimmed(&payload.embeddings_key),
        data_dir: if dir.as_str().is_empty() {
            "data".to_owned()
        } else {
            base.data_dir.clone()
        },
        retrieval_mode: sent_text(&payload.retrieval_mode, base.retrieval_mode.as_str()),
        top_k: match payload.top_k {
            Some(k) => k,
            None => base.top_k,
        },
        min_similarity: match payload.min_similarity {
            Some(m) => m,
            None => base.min_similarity,
        },
        embedding_model: sent_text(&payload.embedding_model, base.embedding_model.as_str()),
        embedding_dim: base.embedding_dim,
        vector_db_path: base.vector_db_path.clone(),
        session_db_path: base.session_db_path.clone(),
    };
    new.apply_env_secrets(env);
    new
}

/// The refusal of settings under which the service cannot be reached.
pub fn unreachable_api(error: &str) -> (r: Refusal)
    ensures
        r@ == (RefusalView { status: BAD_REQUEST, error: "Cannot reach API: "@ + error@ }),
{
    Refusal::because(BAD_REQUEST, "Cannot reach API: ", error)
}

/// The refusal of settings under which the index cannot be built.
pub fn index_failed(error: &str) -> (r: Refusal)
    ensures
        r@ == (RefusalView {
            status: INTERNAL_SERVER_ERROR,
            error: "Index build failed: "@ + error@,
        }),
{
    Refusal::because(INTERNAL_SERVER_ERROR, "Index build failed: ", error)
}

// ── Changing the settings ────────────────────────────────────────────────────

/// How far a change of the settings has come, and what it asks for.
#[derive(Debug)]
pub enum ChangePhase {
    /// Ask the service for its models, to see whether it can be reached.
    Checking,
    /// Build the index.
    Building,
    /// The settings are good: keep and store them.
    Kept,
    /// The change is refused: the settings stay as they were.
    Refused(Refusal),
}

/// What a [`ChangePhase`] stands for.
#[verifier::ext_equal]
pub enum PhaseView {
    Checking,
    Building,
    Kept,
    Refused(RefusalView),
}

impl View for ChangePhase {
    type V = PhaseView;

    open spec fn view(&self) -> PhaseView {
        match self {
            ChangePhase::Checking => PhaseView::Checking,
            ChangePhase::Building => PhaseView::Building,
            ChangePhase::Kept => PhaseView::Kept,
            ChangePhase::Refused(r) => PhaseView::Refused(r@),
        }
    }
}

/// A change of the settings under way.
pub struct SettingsChange {
    settings: Config,
    phase: ChangePhase,
}

/// What a [`SettingsChange`] stands for.
#[verifier::ext_equal]
pub struct ChangeView {
    /// The settings that are to be kept.
    pub settings: ConfigView,
    pub phase: PhaseView,
}

impl View for SettingsChange {
    type V = ChangeView;

    closed spec fn view(&self) -> ChangeView {
        ChangeView { settings: self.settings@, phase: self.phase@ }
    }
}

/// The error of an outcome, if it is one.
pub open spec fn error_of(outcome: Result<(), String>) -> Option<Seq<char>> {
    match outcome {
        Ok(_) => None,
        Err(e) => Some(e@),
    }
}

/// A change after what it asked for succeeded, or failed with an error.
pub open spec fn change_after(s: ChangeView, error: Option<Seq<char>>) -> ChangeView {
    let phase = match (s.phase, error) {
        (PhaseView::Checking, None) => PhaseView::Building,
        (PhaseView::Checking, Some(e)) => PhaseView::Refused(
            RefusalView { status: BAD_REQUEST, error: "Cannot reach API: "@ + e },
        ),
        (PhaseView::Building, None) => PhaseView::Kept,
        (PhaseView::Building, Some(e)) => PhaseView::Refused(
            RefusalView { status: INTERNAL_SERVER_ERROR, error: "Index build failed: "@ + e },
        ),
        (p, _) => p,
    };
    ChangeView { phase: phase, ..s }
}

/// A change to what a payload makes of the current settings, at its start.
pub open spec fn change_to(cfg: Option<Config>, p: ConfigPayload, env: EnvSecrets) -> ChangeView {
    ChangeView { settings: with_secrets(merged(current(cfg), p), env), phase: PhaseView::Checking }
}

impl SettingsChange {
    /// Starts a change to what a payload makes of the current settings.
    pub fn start(cfg: &Option<Config>, payload: &ConfigPayload, env: &EnvSecrets) -> (r:
        SettingsChange)
        ensures
            r@ == change_to(*cfg, *payload, *env),
    {
        SettingsChange { settings: new_config(cfg, payload, env), phase: ChangePhase::Checking }
    }

    /// How far the change has come.
    pub fn phase(&self) -> (r: &ChangePhase)
        ensures
            r@ == self@.phase,
    {
        &self.phase
    }

    /// The settings that are to be kept.
    pub fn settings(&self) -> (r: &Config)
        ensures
            r@ == self@.settings,
    {
        &self.settings
    }

    /// Goes on after what the change asked for succeeded or failed.
    pub fn step(self, outcome: Result<(), String>) -> (r: SettingsChange)
        ensures
            r@ == change_after(self@, error_of(outcome)),
    {
        let SettingsChange { settings, phase } = self;
        let next = match (phase, outcome) {
            (ChangePhase::Checking, Ok(_)) => ChangePhase::Building,
            (ChangePhase::Checking, Err(e)) => ChangePhase::Refused(unreachable_api(e.as_str())),
            (ChangePhase::Building, Ok(_)) => ChangePhase::Kept,
            (ChangePhase::Building, Err(e)) => ChangePhase::Refused(index_failed(e.as_str())),
            (p, _) => p,
        };
        SettingsChange { settings: settings, phase: next }
    }
}

// ── Models ───────────────────────────────────────────────────────────────────

/// The query for the models of a service.
#[derive(Debug)]
pub struct ModelsQuery {
    pub base: String,
    pub key: Option<String>,
}

impl ModelsQuery {
    /// The key to ask with: none if none was sent.
    pub fn key_text(&self) -> (r: &str)
        ensures
            r@ == sent_or(self.key, Seq::empty()),
    {
        match &self.key {
            Some(k) => k.as_str(),
            None => {
                proof {
                    reveal_strlit("");
                    assert(""@ =~= Seq::<char>::empty());
                }
                ""
            },
        }
    }
}

/// One model in a reply.
pub open spec fn model_object(m: ModelView) -> JsonView {
    JsonView::Obj(seq![("id"@, JsonView::Str(m.id)), ("name"@, JsonView::Str(m.name))])
}

/// The models in a reply.
pub open spec fn models_view(models: Seq<ModelView>) -> JsonView {
    JsonView::Obj(
        seq![("models"@, JsonView::Arr(models.map_values(|m: ModelView| model_object(m))))],
    )
}

/// The models in a reply.
pub fn models_reply(models: &[Model]) -> (r: Json)
    ensures
        r@ == models_view(models.deep_view()),
{
    let ghost all = models.deep_view();
    let mut items: Vec<Json> = Vec::new();
    let mut i: usize = 0;
    while i < models.len()
        invariant
            i <= models@.len(),
            all == models.deep_view(),
            all.len() == models@.len(),
            items@.len() == i,
            forall|k: int| 0 <= k < i ==> (#[trigger] items@[k])@ == model_object(all[k]),
        decreases models@.len() - i,
    {
        let mut fields: Vec<(String, Json)> = Vec::new();
        put(&mut fields, "id", string(models[i].id.as_str()));
        put(&mut fields, "name", string(models[i].name.as_str()));
        let o = object(fields);
        proof {
            assert(all[i as int] == models@[i as int].deep_view());
            assert(o@->Obj_0 =~= model_object(all[i as int])->Obj_0);
        }
        items.push(o);
        i = i + 1;
    }
    let ghost list = items_view(items@);
    let mut fields: Vec<(String, Json)> = Vec::new();
    put(&mut fields, "models", array(items));
    let r = object(fields);
    proof {
        assert(list =~= all.map_values(|m: ModelView| model_object(m)));
        assert(r@->Obj_0 =~= models_view(all)->Obj_0);
    }
    r
}

/// The refusal of a query for models that failed.
pub fn models_failed(error: &str) -> (r: Refusal)
    ensures
        r@ == (RefusalView { status: BAD_GATEWAY, error: error@ }),
{
    Refusal::new(BAD_GATEWAY, error)
}

// ── Laws ─────────────────────────────────────────────────────────────────────

/// What the browser sees does not depend on the keys, but for whether there is a
/// chat key: no key is ever sent.
pub proof fn keys_are_never_sent(a: ConfigView, b: ConfigView)
    requires
        b == (ConfigView { api_key: b.api_key, embeddings_key: b.embeddings_key, ..a }),
        (a.api_key.len() > 0) == (b.api_key.len() > 0),
    ensures
        public_view(a) == public_view(b),
{
}

/// A change of the settings after a number of outcomes, each an error or none.
pub open spec fn change_run(s: ChangeView, outcomes: Seq<Option<Seq<char>>>) -> ChangeView
    decreases outcomes.len(),
{
    if outcomes.len() == 0 {
        s
    } else {
        change_after(change_run(s, outcomes.drop_last()), outcomes.last())
    }
}

/// The settings in force after a number of outcomes: the new ones once the change
/// says to keep them, and until then the old ones.
pub open spec fn in_force(
    old: Option<ConfigView>,
    s: ChangeView,
    outcomes: Seq<Option<Seq<char>>>,
) -> Option<ConfigView> {
    if change_run(s, outcomes).phase == PhaseView::Kept {
        Some(change_run(s, outcomes).settings)
    } else {
        old
    }
}

proof fn lemma_change_run(s: ChangeView, outcomes: Seq<Option<Seq<char>>>)
    requires
        s.phase == PhaseView::Checking,
    ensures
        ({
            let t = change_run(s, outcomes);
            &&& t.settings == s.settings
            &&& t.phase == if outcomes.len() == 0 {
                PhaseView::Checking
            } else if outcomes[0] is Some {
                PhaseView::Refused(
                    RefusalView {
                        status: BAD_REQUEST,
                        error: "Cannot reach API: "@ + outcomes[0].unwrap(),
                    },
                )
            } else if outcomes.len() == 1 {
                PhaseView::Building
            } else if outcomes[1] is Some {
                PhaseView::Refused(
                    RefusalView {
                        status: INTERNAL_SERVER_ERROR,
                        error: "Index build failed: "@ + outcomes[1].unwrap(),
                    },
                )
            } else {
                PhaseView::Kept
            }
        }),
    decreases outcomes.len(),
{
    if outcomes.len() > 0 {
        lemma_change_run(s, outcomes.drop_last());
    }
}

/// Settings are kept only after the service was reached and the index was built;
/// where one of them fails the change is refused for that reason, and the settings
/// in force stay as they were.
pub proof fn settings_are_kept_only_when_they_work(
    old: Option<ConfigView>,
    cfg: Option<Config>,
    p: ConfigPayload,
    env: EnvSecrets,
    outcomes: Seq<Option<Seq<char>>>,
)
    ensures
        ({
            let s = change_to(cfg, p, env);
            let t = change_run(s, outcomes);
            &&& t.phase == PhaseView::Kept <==> outcomes.len() >= 2 && outcomes[0] is None
                && outcomes[1] is None
            &&& in_force(old, s, outcomes) == if t.phase == PhaseView::Kept {
                Some(with_secrets(merged(current(cfg), p), env))
            } else {
                old
            }
            &&& outcomes.len() >= 1 && outcomes[0] is Some ==> t.phase == PhaseView::Refused(
                RefusalView {
                    status: BAD_REQUEST,
                    error: "Cannot reach API: "@ + outcomes[0].unwrap(),
                },
            )
            &&& outcomes.len() >= 2 && outcomes[0] is None && outcomes[1] is Some ==> t.phase
                == PhaseView::Refused(
                RefusalView {
                    status: INTERNAL_SERVER_ERROR,
                    error: "Index build failed: "@ + outcomes[1].unwrap(),
                },
            )
        }),
{
    lemma_change_run(change_to(cfg, p, env), outcomes);
}

/// Saving the settings of the service resets no setting of retrieval: what is not
/// sent keeps its value.
pub proof fn omitted_settings_keep_their_value(base: ConfigView, p: ConfigPayload, env: EnvSecrets)
    requires
        p.retrieval_mode is None,
        p.top_k is None,
        p.min_similarity is None,
        p.embedding_model is None,
    ensures
        ({
            let n = with_secrets(merged(base, p), env);
            &&& n.retrieval_mode == base.retrieval_mode
            &&& n.top_k == base.top_k
            &&& n.min_similarity == base.min_similarity
            &&& n.embedding_model == base.embedding_model
            &&& n.embedding_dim == base.embedding_dim
            &&& n.vector_db_path == base.vector_db_path
            &&& n.session_db_path == base.session_db_path
            &&& trim(base.data_dir).len() > 0 ==> n.data_dir == base.data_dir
        }),
{
}

} // verus!
