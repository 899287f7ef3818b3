//! The application's settings, their defaults, and how secrets from the
//! environment take precedence over stored ones without being stored.
use vstd::prelude::*;

use crate::numbers::{parse_unsigned, unsigned_value};
use crate::rag::score::Score;
use crate::text::{trim, trimmed};

verus! {

/// The file that the settings are read from and written to.
pub const CONFIG_PATH: &'static str = "config.toml";

/// The environment variable that holds the chat API key.
pub const ENV_API_KEY: &'static str = "AGENT_API_KEY";

/// The environment variable that holds the key of the embeddings endpoint.
pub const ENV_EMBEDDINGS_KEY: &'static str = "AGENT_EMBEDDINGS_KEY";

/// The settings of the application.
#[derive(Debug)]
pub struct Config {
    /// Base URL of the OpenAI-compatible API.
    pub api_base: String,
    /// API key; empty for services that need none.
    pub api_key: String,
    /// The chosen model.
    pub model: String,
    /// Base URL for embeddings.
    pub embeddings_base: String,
    /// Model of the embeddings endpoint.
    pub embeddings_model: String,
    /// API key of the embeddings endpoint.
    pub embeddings_key: String,
    /// Directory of documents to ingest.
    pub data_dir: String,
    /// `keyword`, `vector` or `hybrid`.
    pub retrieval_mode: String,
    /// How many chunks to retrieve.
    pub top_k: usize,
    /// The similarity from which on a vector hit counts as evidence.
    pub min_similarity: Score,
    /// The local embedding model.
    pub embedding_model: String,
    /// Dimension of the embedding vectors.
    pub embedding_dim: usize,
    /// Path of the vector database.
    pub vector_db_path: String,
    /// Path of the session database.
    pub session_db_path: String,
}

/// What a [`Config`] stands for.
#[verifier::ext_equal]
pub struct ConfigView {
    pub api_base: Seq<char>,
    pub api_key: Seq<char>,
    pub model: Seq<char>,
    pub embeddings_base: Seq<char>,
    pub embeddings_model: Seq<char>,
    pub embeddings_key: Seq<char>,
    pub data_dir: Seq<char>,
    pub retrieval_mode: Seq<char>,
    pub top_k: usize,
    pub min_similarity: Score,
    pub embedding_model: Seq<char>,
    pub embedding_dim: usize,
    pub vector_db_path: Seq<char>,
    pub session_db_path: Seq<char>,
}

impl View for Config {
    type V = ConfigView;

    open spec fn view(&self) -> ConfigView {
        ConfigView {
            api_base: self.api_base@,
            api_key: self.api_key@,
            model: self.model@,
            embeddings_base: self.embeddings_base@,
            embeddings_model: self.embeddings_model@,
            embeddings_key: self.embeddings_key@,
            data_dir: self.data_dir@,
            retrieval_mode: self.retrieval_mode@,
            top_k: self.top_k,
            min_similarity: self.min_similarity,
            embedding_model: self.embedding_model@,
            embedding_dim: self.embedding_dim,
            vector_db_path: self.vector_db_path@,
            session_db_path: self.session_db_path@,
        }
    }
}

impl Clone for Config {
    fn clone(&self) -> (r: Config)
        ensures
            r@ == self@,
    {
        Config {
            api_base: self.api_base.clone(),
            api_key: self.api_key.clone(),
            model: self.model.clone(),
            embeddings_base: self.embeddings_base.clone(),
            embeddings_model: self.embeddings_model.clone(),
            embeddings_key: self.embeddings_key.clone(),
            data_dir: self.data_dir.clone(),
            retrieval_mode: self.retrieval_mode.clone(),
            top_k: self.top_k,
            min_similarity: self.min_similarity,
            embedding_model: self.embedding_model.clone(),
            embedding_dim: self.embedding_dim,
            vector_db_path: self.vector_db_path.clone(),
            session_db_path: self.session_db_path.clone(),
        }
    }
}

/// The secrets that the environment holds, as read.
#[derive(Debug)]
pub struct EnvSecrets {
    /// Value of [`ENV_API_KEY`].
    pub api_key: Option<String>,
    /// Value of [`ENV_EMBEDDINGS_KEY`].
    pub embeddings_key: Option<String>,
}

/// The key that an environment variable gives: its value trimmed, if anything is
/// left of it.
pub open spec fn key_of(raw: Option<String>) -> Option<Seq<char>> {
    match raw {
        Some(s) => if trim(s@).len() > 0 {
            Some(trim(s@))
        } else {
            None
        },
        None => None,
    }
}

/// The key that an environment variable gives.
pub fn env_key(raw: &Option<String>) -> (r: Option<String>)
    ensures
        match r {
            Some(k) => key_of(*raw) == Some(k@),
            None => key_of(*raw) is None,
        },
{
    match raw {
        Some(s) => {
            let t = trimmed(s.as_str());
            if t.as_str().is_empty() {
                None
            } else {
                Some(t)
            }
        },
        None => None,
    }
}

pub fn default_embed_model() -> (r: String)
    ensures
        r@ == "text-embedding-3-small"@,
{
    "text-embedding-3-small".to_owned()
}

pub fn default_data_dir() -> (r: String)
    ensures
        r@ == "data"@,
{
    "data".to_owned()
}

pub fn default_retrieval_mode() -> (r: String)
    ensures
        r@ == "hybrid"@,
{
    "hybrid".to_owned()
}

pub fn default_top_k() -> (r: usize)
    ensures
        r == 8,
{
    8
}

/// The number nearest to 0.2.
pub fn default_min_similarity() -> (r: Score)
    ensures
        r.bits == 0x3e4c_cccd,
{
    Score { bits: 0x3e4c_cccd }
}

pub fn default_embedding_model() -> (r: String)
    ensures
        r@ == "all-MiniLM-L6-v2"@,
{
    "all-MiniLM-L6-v2".to_owned()
}

pub fn default_embedding_dim() -> (r: usize)
    ensures
        r == 384,
{
    384
}

pub fn default_vector_db_path() -> (r: String)
    ensures
        r@ == "data/rag_vectors.sqlite"@,
{
    "data/rag_vectors.sqlite".to_owned()
}

pub fn default_session_db_path() -> (r: String)
    ensures
        r@ == "data/sessions.sqlite"@,
{
    "data/sessions.sqlite".to_owned()
}

/// The settings of an application that was never set up.
pub open spec fn default_config() -> ConfigView {
    ConfigView {
        api_base: "https://api.openai.com/v1"@,
        api_key: Seq::empty(),
        model: Seq::empty(),
        embeddings_base: Seq::empty(),
        embeddings_model: "text-embedding-3-small"@,
        embeddings_key: Seq::empty(),
        data_dir: "data"@,
        retrieval_mode: "hybrid"@,
        top_k: 8,
        min_similarity: Score { bits: 0x3e4c_cccd },
        embedding_model: "all-MiniLM-L6-v2"@,
        embedding_dim: 384,
        vector_db_path: "data/rag_vectors.sqlite"@,
        session_db_path: "data/sessions.sqlite"@,
    }
}

/// The settings that a first launch starts from, before any secret.
pub open spec fn local_config() -> ConfigView {
    ConfigView {
        api_base: "https://api.groq.com/openai/v1"@,
        model: "llama-3.3-70b-versatile"@,
        embeddings_model: "local"@,
        ..default_config()
    }
}

/// The settings with the secrets of the environment in place of stored ones.
pub open spec fn with_secrets(c: ConfigView, env: EnvSecrets) -> ConfigView {
    ConfigView {
        api_key: match key_of(env.api_key) {
            Some(k) => k,
            None => c.api_key,
        },
        embeddings_key: match key_of(env.embeddings_key) {
            Some(k) => k,
            None => c.embeddings_key,
        },
        ..c
    }
}

/// The settings as they are stored: without the secrets that the environment
/// holds.
pub open spec fn stored_form(c: ConfigView, env: EnvSecrets) -> ConfigView {
    ConfigView {
        api_key: if key_of(env.api_key) is Some {
            Seq::empty()
        } else {
            c.api_key
        },
        embeddings_key: if key_of(env.embeddings_key) is Some {
            Seq::empty()
        } else {
            c.embeddings_key
        },
        ..c
    }
}

impl Default for Config {
    fn default() -> (r: Config)
        ensures
            r@ == default_config(),
    {
        Config {
            api_base: "https://api.openai.com/v1".to_owned(),
            api_key: String::new(),
            model: String::new(),
            embeddings_base: String::new(),
            embeddings_model: default_embed_model(),
            embeddings_key: String::new(),
            data_dir: default_data_dir(),
            retrieval_mode: default_retrieval_mode(),
            top_k: default_top_k(),
            min_similarity: default_min_similarity(),
            embedding_model: default_embedding_model(),
            embedding_dim: default_embedding_dim(),
            vector_db_path: default_vector_db_path(),
            session_db_path: default_session_db_path(),
        }
    }
}

impl Config {
    /// The settings that a first launch starts from: chat through Groq, search
    /// in process, and the secrets of the environment.
    pub fn default_local(env: &EnvSecrets) -> (r: Config)
        ensures
            r@ == with_secrets(local_config(), *env),
    {
        let mut cfg = Config {
            api_base: "https://api.groq.com/openai/v1".to_owned(),
            api_key: String::new(),
            model: "llama-3.3-70b-versatile".to_owned(),
            embeddings_base: String::new(),
            embeddings_model: "local".to_owned(),
            embeddings_key: String::new(),
            data_dir: default_data_dir(),
            retrieval_mode: default_retrieval_mode(),
            top_k: default_top_k(),
            min_similarity: default_min_similarity(),
            embedding_model: default_embedding_model(),
            embedding_dim: default_embedding_dim(),
            vector_db_path: default_vector_db_path(),
            session_db_path: default_session_db_path(),
        };
        cfg.apply_env_secrets(env);
        cfg
    }

    /// Puts the secrets of the environment in place of the stored ones. A
    /// secret from the environment always wins.
    pub fn apply_env_secrets(&mut self, env: &EnvSecrets)
        ensures
            final(self)@ == with_secrets(old(self)@, *env),
    {
        if let Some(k) = env_key(&env.api_key) {
            self.api_key = k;
        }
        if let Some(k) = env_key(&env.embeddings_key) {
            self.embeddings_key = k;
        }
    }

    /// Where the chat API key comes from, for the log. Never the key itself.
    pub fn api_key_source(&self, env: &EnvSecrets) -> (r: &'static str)
        ensures
            r@ == if key_of(env.api_key) is Some {
                "AGENT_API_KEY environment variable"@
            } else if self.api_key@.len() > 0 {
                "config.toml (consider moving it to the AGENT_API_KEY env var instead)"@
            } else {
                "none set"@
            },
    {
        if env_key(&env.api_key).is_some() {
            "AGENT_API_KEY environment variable"
        } else if !self.api_key.as_str().is_empty() {
            "config.toml (consider moving it to the AGENT_API_KEY env var instead)"
        } else {
            "none set"
        }
    }

    /// The settings as they are stored. A secret that the environment holds is
    /// left out.
    pub fn for_disk(&self, env: &EnvSecrets) -> (r: Config)
        ensures
            r@ == stored_form(self@, *env),
    {
        let mut on_disk = self.clone();
        if env_key(&env.api_key).is_some() {
            on_disk.api_key = String::new();
        }
        if env_key(&env.embeddings_key).is_some() {
            on_disk.embeddings_key = String::new();
        }
        on_disk
    }
}

/// The port that the server listens on unless the environment says otherwise.
pub const DEFAULT_PORT: u16 = 3000;

/// The port that an environment variable gives, or the default.
pub open spec fn port_of(raw: Option<String>) -> u16 {
    match raw {
        Some(s) => match unsigned_value(s@) {
            Some(n) => if n <= 65535 {
                n as u16
            } else {
                DEFAULT_PORT
            },
            None => DEFAULT_PORT,
        },
        None => DEFAULT_PORT,
    }
}

/// The port that an environment variable gives, or the default.
pub fn port_from(raw: &Option<String>) -> (r: u16)
    ensures
        r == port_of(*raw),
{
    match raw {
        Some(s) => match parse_unsigned(s.as_str(), 65535) {
            Some(n) => n as u16,
            None => DEFAULT_PORT,
        },
        None => DEFAULT_PORT,
    }
}

// ── Laws ─────────────────────────────────────────────────────────────────────

/// A secret that the environment holds is never stored, and every setting that
/// is stored is the one in use.
pub proof fn env_secrets_are_never_stored(c: ConfigView, env: EnvSecrets)
    ensures
        key_of(env.api_key) is Some ==> stored_form(with_secrets(c, env), env).api_key.len() == 0,
        key_of(env.embeddings_key) is Some ==> stored_form(
            with_secrets(c, env),
            env,
        ).embeddings_key.len() == 0,
        key_of(env.api_key) is None ==> stored_form(with_secrets(c, env), env).api_key == c.api_key,
        key_of(env.embeddings_key) is None ==> stored_form(
            with_secrets(c, env),
            env,
        ).embeddings_key == c.embeddings_key,
{
}

/// What was stored and read back under the same environment is what was in use.
pub proof fn storing_and_loading_keeps_the_settings(c: ConfigView, env: EnvSecrets)
    ensures
        with_secrets(stored_form(with_secrets(c, env), env), env) == with_secrets(c, env),
{
}

/// A key from the environment wins over any stored or posted one.
pub proof fn env_secret_always_wins(c: ConfigView, d: ConfigView, env: EnvSecrets)
    ensures
        key_of(env.api_key) is Some ==> with_secrets(c, env).api_key == with_secrets(
            d,
            env,
        ).api_key && Some(with_secrets(c, env).api_key) == key_of(env.api_key),
        key_of(env.embeddings_key) is Some ==> with_secrets(c, env).embeddings_key
            == with_secrets(d, env).embeddings_key && Some(with_secrets(c, env).embeddings_key)
            == key_of(env.embeddings_key),
{
}

} // verus!
