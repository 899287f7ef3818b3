//! Requests, replies and settings.
use agent_toolkit::api::chat::{check as check_chat, check_with, reply as chat_reply, ChatRequest};
use agent_toolkit::api::config::{
    get_config, index_failed, models_failed, models_reply, new_config, unreachable_api,
    ChangePhase, ConfigPayload, ModelsQuery, SettingsChange,
};
use agent_toolkit::api::rag::{check as check_rag, results_reply, RagRequest};
use agent_toolkit::api::reply::{ok_body, Refusal};
use agent_toolkit::api::upload::{
    check as check_upload, check_rebuild, rebuild_failed, rebuilt, removed_reply, sources_reply,
    upload_failed, uploaded, RemovePayload, UploadPayload,
};
use agent_toolkit::agent::{ToolUsed, TurnResult};
use agent_toolkit::config::{
    env_key, port_from, Config, EnvSecrets, CONFIG_PATH, DEFAULT_PORT, ENV_API_KEY,
    ENV_EMBEDDINGS_KEY,
};
use agent_toolkit::json::Json;
use agent_toolkit::models::{models_from, models_refused, models_url, ModelRaw};
use agent_toolkit::rag::score::Score;
use agent_toolkit::rag::types::{Hit, HitSource, RagConfig, RetrievalMode};

fn text(j: &Json) -> String {
    value(j).to_string()
}

fn value(j: &Json) -> serde_json::Value {
    match j {
        Json::Null => serde_json::Value::Null,
        Json::Bool(b) => serde_json::Value::Bool(*b),
        Json::UInt(n) => serde_json::Value::from(*n),
        Json::Real(s) => serde_json::Value::from(f32::from_bits(s.bits)),
        Json::Number(t) => serde_json::from_str(t).unwrap(),
        Json::Str(s) => serde_json::Value::from(s.as_str()),
        Json::Arr(v) => serde_json::Value::Array(v.iter().map(value).collect()),
        Json::Obj(v) => {
            serde_json::Value::Object(v.iter().map(|(k, x)| (k.clone(), value(x))).collect())
        }
    }
}

fn no_env() -> EnvSecrets {
    EnvSecrets { api_key: None, embeddings_key: None }
}

fn payload() -> ConfigPayload {
    ConfigPayload {
        api_base: " https://x/v1 ".to_string(),
        api_key: Some(" key ".to_string()),
        model: " m ".to_string(),
        embeddings_base: None,
        embeddings_model: None,
        embeddings_key: None,
        retrieval_mode: None,
        top_k: None,
        min_similarity: None,
        embedding_model: None,
    }
}

fn refused<T>(r: Result<T, Refusal>) -> (u16, String) {
    match r {
        Ok(_) => panic!("not refused"),
        Err(e) => {
            assert_eq!(value(&e.body())["error"], e.error.as_str());
            (e.status, e.error)
        }
    }
}

#[test]
fn chats_are_checked() {
    let req = |m: &str, s: Option<&str>| ChatRequest {
        message: m.to_string(),
        session_id: s.map(|x| x.to_string()),
    };
    assert_eq!(
        refused(check_chat(false, &req("hi", None))),
        (412, "Not configured. Complete setup first.".to_string())
    );
    assert_eq!(
        refused(check_chat(true, &req(" \n", None))),
        (400, "message is required".to_string())
    );
    let t = check_chat(true, &req(" hi ", Some("s1"))).unwrap();
    assert_eq!((t.message.as_str(), t.session_id.as_str()), ("hi", "s1"));
    let t = check_with(true, &req("hi", None), "fresh".to_string()).unwrap();
    assert_eq!(t.session_id, "fresh");
}

#[test]
fn new_sessions_get_random_ids() {
    let req = ChatRequest { message: "hi".to_string(), session_id: None };
    let a = check_chat(true, &req).unwrap().session_id;
    let b = check_chat(true, &req).unwrap().session_id;
    assert_ne!(a, b);
    for id in [a, b] {
        assert_eq!(id.len(), 36);
        let u = uuid::Uuid::parse_str(&id).unwrap();
        assert_eq!(u.get_version_num(), 4);
        assert_eq!(u.to_string(), id);
        let c: Vec<char> = id.chars().collect();
        assert_eq!((c[8], c[13], c[18], c[23]), ('-', '-', '-', '-'));
        assert_eq!(c[14], '4');
        assert!(matches!(c[19], '8' | '9' | 'a' | 'b'));
    }
}

#[test]
fn chat_replies_are_complete() {
    let r = TurnResult {
        answer: "yes".to_string(),
        tools_used: vec![ToolUsed { tool: "documents".to_string(), detail: Json::Null }],
        sources: vec!["a.txt".to_string()],
    };
    assert_eq!(
        text(&chat_reply(r, "s1")),
        r#"{"answer":"yes","session_id":"s1","sources":["a.txt"],"tools_used":[{"detail":null,"tool":"documents"}]}"#
    );
    let e = agent_toolkit::api::chat::failed("boom");
    assert_eq!((e.status, e.error.as_str()), (500, "boom"));
}

#[test]
fn the_key_is_never_shown() {
    assert_eq!(text(&get_config(&None)), r#"{"configured":false}"#);
    let cfg = Config {
        api_key: "secret-key".to_string(),
        embeddings_key: "other-secret".to_string(),
        ..Config::default()
    };
    let v = value(&get_config(&Some(cfg)));
    let shown = v.to_string();
    assert!(!shown.contains("secret"));
    assert_eq!(v["api_key_set"], true);
    assert_eq!(v["configured"], true);
    assert_eq!(v["top_k"], 8);
    assert_eq!(v["embedding_dim"], 384);
    assert_eq!(v["retrieval_mode"], "hybrid");
    assert_eq!(v["min_similarity"].as_f64().unwrap() as f32, 0.2f32);
    assert_eq!(value(&get_config(&Some(Config::default())))["api_key_set"], false);
}

#[test]
fn saved_settings_keep_what_is_not_sent() {
    let base = Config {
        retrieval_mode: "vector".to_string(),
        top_k: 3,
        min_similarity: Score { bits: 0.5f32.to_bits() },
        embedding_model: "bge-base".to_string(),
        embedding_dim: 768,
        vector_db_path: "v.sqlite".to_string(),
        session_db_path: "s.sqlite".to_string(),
        data_dir: "docs".to_string(),
        ..Config::default()
    };
    let n = new_config(&Some(base.clone()), &payload(), &no_env());
    assert_eq!(n.api_base, "https://x/v1");
    assert_eq!(n.api_key, "key");
    assert_eq!(n.model, "m");
    assert_eq!(n.embeddings_model, "text-embedding-3-small");
    assert_eq!(n.embeddings_base, "");
    assert_eq!(n.retrieval_mode, "vector");
    assert_eq!(n.top_k, 3);
    assert_eq!(n.min_similarity.bits, 0.5f32.to_bits());
    assert_eq!(n.embedding_model, "bge-base");
    assert_eq!(n.embedding_dim, 768);
    assert_eq!(n.vector_db_path, "v.sqlite");
    assert_eq!(n.session_db_path, "s.sqlite");
    assert_eq!(n.data_dir, "docs");

    let mut p = payload();
    p.retrieval_mode = Some("keyword".to_string());
    p.top_k = Some(1);
    p.embedding_model = Some("minilm".to_string());
    p.min_similarity = Some(Score { bits: 7 });
    p.embeddings_model = Some("e".to_string());
    let n = new_config(&Some(Config { data_dir: " ".to_string(), ..base }), &p, &no_env());
    assert_eq!(n.retrieval_mode, "keyword");
    assert_eq!(n.top_k, 1);
    assert_eq!(n.embedding_model, "minilm");
    assert_eq!(n.min_similarity.bits, 7);
    assert_eq!(n.embeddings_model, "e");
    assert_eq!(n.data_dir, "data");

    let n = new_config(&None, &payload(), &no_env());
    assert_eq!(n.top_k, 8);
}

#[test]
fn secrets_of_the_environment_win_and_are_not_stored() {
    let env = EnvSecrets {
        api_key: Some("  from-env ".to_string()),
        embeddings_key: Some("   ".to_string()),
    };
    let n = new_config(&None, &payload(), &env);
    assert_eq!(n.api_key, "from-env");
    assert_eq!(n.api_key_source(&env), "AGENT_API_KEY environment variable");
    let disk = n.for_disk(&env);
    assert_eq!(disk.api_key, "");
    assert_eq!(disk.model, "m");
    let mut back = disk;
    back.apply_env_secrets(&env);
    assert_eq!(back.api_key, "from-env");

    assert_eq!(env_key(&env.api_key), Some("from-env".to_string()));
    assert_eq!(env_key(&env.embeddings_key), None);
    assert_eq!(env_key(&None), None);

    let pasted = new_config(&None, &payload(), &no_env());
    assert_eq!(pasted.for_disk(&no_env()).api_key, "key");
    assert_eq!(
        pasted.api_key_source(&no_env()),
        "config.toml (consider moving it to the AGENT_API_KEY env var instead)"
    );
    assert_eq!(Config::default().api_key_source(&no_env()), "none set");
    assert_eq!((ENV_API_KEY, ENV_EMBEDDINGS_KEY), ("AGENT_API_KEY", "AGENT_EMBEDDINGS_KEY"));
    assert_eq!(CONFIG_PATH, "config.toml");
}

#[test]
fn first_launches_point_at_groq() {
    let env = EnvSecrets { api_key: Some("k".to_string()), embeddings_key: Some("e".to_string()) };
    let c = Config::default_local(&env);
    assert_eq!(c.api_base, "https://api.groq.com/openai/v1");
    assert_eq!(c.model, "llama-3.3-70b-versatile");
    assert_eq!(c.embeddings_model, "local");
    assert_eq!((c.api_key.as_str(), c.embeddings_key.as_str()), ("k", "e"));
    assert_eq!(c.min_similarity.bits, 0.2f32.to_bits());
    assert_eq!(c.session_db_path, "data/sessions.sqlite");
    assert_eq!(Config::default().api_base, "https://api.openai.com/v1");
}

#[test]
fn retrieval_settings_come_from_the_settings() {
    let c = Config { vector_db_path: "  ".to_string(), embedding_dim: 0, ..Config::default() };
    let r = RagConfig::from_app_config(&c);
    assert_eq!(r.db_path, RagConfig::DEFAULT_DB_PATH);
    assert_eq!(r.db_path, "data/rag_vectors.sqlite");
    assert_eq!(r.embedding_dim, 384);
    assert_eq!((r.chunk_chars, r.overlap_chars), (3500, 600));
    for (name, mode) in [
        ("keyword", RetrievalMode::Keyword),
        (" BM25", RetrievalMode::Keyword),
        ("lexical", RetrievalMode::Keyword),
        ("Semantic", RetrievalMode::Vector),
        ("dense", RetrievalMode::Vector),
        ("vector", RetrievalMode::Vector),
        ("hybrid", RetrievalMode::Hybrid),
        ("", RetrievalMode::Hybrid),
        ("nonsense", RetrievalMode::Hybrid),
    ] {
        assert_eq!(RetrievalMode::parse(name), mode);
        assert_eq!(RetrievalMode::parse(mode.as_str()), mode);
    }
    assert_eq!(RetrievalMode::default(), RetrievalMode::Hybrid);
}

#[test]
fn ports_are_read() {
    assert_eq!(port_from(&None), 3000);
    assert_eq!(port_from(&Some("8080".to_string())), 8080);
    assert_eq!(port_from(&Some("+80".to_string())), 80);
    assert_eq!(port_from(&Some("65535".to_string())), 65535);
    assert_eq!(port_from(&Some("65536".to_string())), DEFAULT_PORT);
    assert_eq!(port_from(&Some(" 80".to_string())), DEFAULT_PORT);
    assert_eq!(port_from(&Some("-1".to_string())), DEFAULT_PORT);
    assert_eq!(port_from(&Some("".to_string())), DEFAULT_PORT);
}

#[test]
fn settings_are_refused_with_reasons() {
    let e = unreachable_api("dns");
    assert_eq!((e.status, e.error.as_str()), (400, "Cannot reach API: dns"));
    let e = index_failed("disk");
    assert_eq!((e.status, e.error.as_str()), (500, "Index build failed: disk"));
    let e = models_failed("down");
    assert_eq!((e.status, e.error.as_str()), (502, "down"));
    assert_eq!(text(&ok_body()), r#"{"ok":true}"#);
}

#[test]
fn settings_are_kept_only_when_they_work() {
    let start = || SettingsChange::start(&None, &payload(), &no_env());
    assert!(matches!(start().phase(), ChangePhase::Checking));
    assert_eq!(start().settings().api_base, "https://x/v1");

    let checked = start().step(Ok(()));
    assert!(matches!(checked.phase(), ChangePhase::Building));
    let kept = checked.step(Ok(()));
    assert!(matches!(kept.phase(), ChangePhase::Kept));
    assert_eq!(kept.settings().api_key, "key");
    assert!(matches!(kept.step(Err("late".to_string())).phase(), ChangePhase::Kept));

    let refusal = |c: &SettingsChange| match c.phase() {
        ChangePhase::Refused(r) => (r.status, r.error.clone()),
        p => panic!("not refused: {p:?}"),
    };
    let lost = start().step(Err("dns".to_string()));
    assert_eq!(refusal(&lost), (400, "Cannot reach API: dns".to_string()));
    assert_eq!(refusal(&lost.step(Ok(()))), (400, "Cannot reach API: dns".to_string()));
    let unbuilt = start().step(Ok(())).step(Err("disk".to_string()));
    assert_eq!(refusal(&unbuilt), (500, "Index build failed: disk".to_string()));
    assert_eq!(refusal(&unbuilt.step(Ok(()))), (500, "Index build failed: disk".to_string()));
}

#[test]
fn models_are_listed_by_id() {
    let raw = |id: &str, name: Option<&str>| ModelRaw {
        id: id.to_string(),
        name: name.map(|n| n.to_string()),
    };
    let m = models_from(vec![raw("b", None), raw("a", Some("Model A")), raw("B", None)]);
    let ids: Vec<&str> = m.iter().map(|x| x.id.as_str()).collect();
    assert_eq!(ids, vec!["B", "a", "b"]);
    assert_eq!(m[1].name, "Model A");
    assert_eq!(m[2].name, "b");
    assert_eq!(
        text(&models_reply(&m[1..])),
        r#"{"models":[{"id":"a","name":"Model A"},{"id":"b","name":"b"}]}"#
    );
    assert_eq!(models_url("https://x/v1/"), "https://x/v1/models");
    assert_eq!(
        models_refused("401 Unauthorized", "no"),
        "models endpoint returned 401 Unauthorized: no"
    );
    let q = ModelsQuery { base: "b".to_string(), key: None };
    assert_eq!(q.key_text(), "");
    let q = ModelsQuery { base: "b".to_string(), key: Some("k".to_string()) };
    assert_eq!(q.key_text(), "k");
}

#[test]
fn searches_are_answered() {
    let req = |q: &str| RagRequest { query: q.to_string() };
    assert_eq!(refused(check_rag(false, &req("x"))), (412, "Not configured.".to_string()));
    assert_eq!(refused(check_rag(true, &req("  "))), (400, "query is required".to_string()));
    assert_eq!(check_rag(true, &req(" battery ")).unwrap(), "battery");
    let hit = Hit {
        text: "t".to_string(),
        source: "a.txt".to_string(),
        score: Score { bits: 0.5f32.to_bits() },
        document_id: "d".to_string(),
        chunk_id: 2,
        retrieval: HitSource::Vector,
    };
    assert_eq!(
        text(&results_reply(&[hit], "battery", "hybrid")),
        r#"{"mode":"hybrid","query":"battery","results":[{"chunk_id":2,"document_id":"d","retrieval":"vector","score":0.5,"source":"a.txt","text":"t"}]}"#
    );
    let e = agent_toolkit::api::rag::failed("boom");
    assert_eq!((e.status, e.error.as_str()), (500, "boom"));
}

#[test]
fn uploads_are_checked() {
    let up = |f: &str, t: &str| UploadPayload { filename: f.to_string(), text: t.to_string() };
    assert_eq!(
        refused(check_upload(false, &up("a", "b"))),
        (412, "Not ready yet. Try again in a moment.".to_string())
    );
    assert_eq!(refused(check_upload(true, &up(" ", "b"))), (400, "Missing file name.".to_string()));
    assert_eq!(
        refused(check_upload(true, &up(" a.pdf ", " \n"))),
        (
            400,
            "'a.pdf' has no readable text. If it's a scanned PDF, it would need OCR first."
                .to_string()
        )
    );
    let u = check_upload(true, &up(" a.txt ", " text ")).unwrap();
    assert_eq!((u.filename.as_str(), u.text.as_str()), ("a.txt", "text"));
    assert_eq!(text(&uploaded("a.txt", 3)), r#"{"chunks":3,"name":"a.txt","ok":true}"#);
    let e = upload_failed("a.txt", "disk");
    assert_eq!((e.status, e.error.as_str()), (500, "Could not index 'a.txt': disk"));
}

#[test]
fn documents_are_listed_removed_and_rebuilt() {
    assert_eq!(
        text(&sources_reply(&[("a.txt".to_string(), 2), ("b.txt".to_string(), 1)])),
        r#"{"sources":[{"chunks":2,"name":"a.txt"},{"chunks":1,"name":"b.txt"}]}"#
    );
    let r = RemovePayload { name: "a.txt".to_string() };
    assert_eq!(r.name, "a.txt");
    assert_eq!(text(&removed_reply(false)), r#"{"ok":true,"removed":false}"#);
    assert_eq!(refused(check_rebuild(false)), (412, "Not configured.".to_string()));
    assert!(check_rebuild(true).is_ok());
    assert_eq!(text(&rebuilt(7)), r#"{"chunks":7,"ok":true}"#);
    let e = rebuild_failed("disk");
    assert_eq!((e.status, e.error.as_str()), (500, "Rebuild failed: disk"));
}
