//! Turns of a conversation and their replies.
use agent_toolkit::agent::{
    answer_of, assemble, chat_url, classify_failure, conclude_turn, failure_kind, failure_reply,
    is_cuttable, is_local, lacks_key, next_action, parse_retry, saved_turns, should_retry,
    not_reached, Failure, Message, NextAction, SendStep, Sending, ToolCall, ToolFunction, BAD_KEY, BAD_MODEL,
    NO_KEY, SYSTEM, TOO_BIG,
};
use agent_toolkit::config::Config;
use agent_toolkit::json::Json;
use agent_toolkit::rag::context::Context;

fn context(text: &str, sources: &[&str], truncated: bool) -> Context {
    Context {
        text: text.to_string(),
        sources: sources.iter().map(|s| s.to_string()).collect(),
        truncated,
    }
}

fn said(role: &str, text: &str) -> Message {
    Message {
        role: role.to_string(),
        content: Some(text.to_string()),
        tool_calls: None,
        tool_call_id: None,
        name: None,
    }
}

#[test]
fn a_turn_holds_instructions_documents_and_memory() {
    let history = [said("user", "hi"), said("assistant", "hello")];
    let m = assemble(&context("DOC", &["a.txt"], false), &history, "what now?");
    let roles: Vec<&str> = m.iter().map(|x| x.role.as_str()).collect();
    assert_eq!(roles, vec!["system", "system", "user", "assistant", "user"]);
    assert_eq!(m[0].content.as_deref(), Some(SYSTEM));
    assert!(SYSTEM.starts_with("You are a knowledgeable assistant"));
    assert_eq!(
        m[1].content.as_deref(),
        Some(
            "Below are the user's documents in full. Treat their contents as your knowledge for \
             this conversation.\n\n===== DOCUMENTS =====\nDOC\n===== END DOCUMENTS ====="
        )
    );
    assert_eq!(m[3].content.as_deref(), Some("hello"));
    assert_eq!(m[4].content.as_deref(), Some("what now?"));

    let m = assemble(&context("DOC", &[], true), &[], "x");
    assert!(m[1].content.as_deref().unwrap().starts_with("Below are the most relevant excerpts"));
    let m = assemble(&context("", &[], false), &[], "x");
    assert!(m[1].content.as_deref().unwrap().contains("“Add” button"));
}

#[test]
fn messages_keep_their_tool_calls() {
    let call = ToolCall {
        id: "c1".to_string(),
        kind: "function".to_string(),
        function: ToolFunction { name: "calculator".to_string(), arguments: "{}".to_string() },
    };
    let mut m = said("assistant", "");
    m.tool_calls = Some(vec![call]);
    let out = assemble(&context("", &[], false), &[m], "x");
    let calls = out[2].tool_calls.as_ref().unwrap();
    assert_eq!(calls[0].function.name, "calculator");
    assert_eq!(calls[0].id, "c1");
}

#[test]
fn hosted_services_need_a_key() {
    let cfg = Config { api_base: "https://api.groq.com/openai/v1".to_string(), ..Config::default() };
    assert!(lacks_key(&cfg));
    assert!(NO_KEY.starts_with("NO_KEY: I need a free key to start."));
    let with_key = Config { api_key: "k".to_string(), ..cfg };
    assert!(!lacks_key(&with_key));
    let local = Config { api_base: "http://localhost:11434/v1".to_string(), ..Config::default() };
    assert!(!lacks_key(&local));
    assert!(is_local("http://127.0.0.1:1234/v1"));
    assert!(!is_local("https://api.openai.com/v1"));
}

#[test]
fn turns_go_to_the_completions_of_the_base() {
    assert_eq!(chat_url("https://x/v1//"), "https://x/v1/chat/completions");
    assert_eq!(chat_url("https://x/v1"), "https://x/v1/chat/completions");
}

#[test]
fn unreachable_services_are_told_apart() {
    assert_eq!(
        not_reached("http://localhost:1/v1", "refused"),
        "CONN: I couldn't reach the local AI. Open Settings and switch to Groq (free), or start your local model. (details: refused)"
    );
    assert_eq!(
        not_reached("https://x", "dns"),
        "CONN: I couldn't reach the AI service. Check your internet connection. (details: dns)"
    );
}

#[test]
fn waits_are_read_from_the_body() {
    let wait = |b: &str| parse_retry(b).map(|h| (h.number, h.millis));
    assert_eq!(
        wait("Rate limit reached. Please Try again in 2.225s. Visit"),
        Some(("2.225".to_string(), false))
    );
    assert_eq!(wait("try again in 850ms"), Some(("850".to_string(), true)));
    assert_eq!(wait("try again in  7 ms"), Some(("7".to_string(), true)));
    assert_eq!(wait("try again in 3 minutes"), Some(("3".to_string(), false)));
    assert_eq!(wait("try again in a while"), None);
    assert_eq!(wait("try again in 1.2.3s"), None);
    assert_eq!(wait("try again later"), None);
    assert_eq!(wait("try again in 5s or try again in 9s"), Some(("5".to_string(), false)));
    assert_eq!(wait("ÄÖÜ TRY AGAIN IN 4S"), Some(("4".to_string(), false)));
}

#[test]
fn rate_limits_are_waited_out_three_times() {
    assert!(should_retry(429, 1));
    assert!(should_retry(429, 3));
    assert!(!should_retry(429, 4));
    assert!(!should_retry(500, 1));
    let body = "try again in 2s";
    assert!(matches!(next_action(429, 1, body), NextAction::WaitAndResend(Some(_))));
    assert!(matches!(next_action(429, 2, "busy"), NextAction::WaitAndResend(None)));
    assert!(matches!(next_action(429, 4, body), NextAction::Fail(Failure::Other)));
    assert!(matches!(next_action(200, 1, ""), NextAction::ReadAnswer));
    assert!(matches!(next_action(204, 9, ""), NextAction::ReadAnswer));
    assert!(matches!(next_action(401, 1, ""), NextAction::Fail(Failure::BadKey)));
}

/// How often a turn is sent that is answered by these statuses, and how it ends.
fn sent(statuses: &[u16]) -> (u32, Option<SendStep>) {
    let mut turn = Sending::first();
    for status in statuses {
        let times = turn.times();
        match turn.replied(*status, "please try again in 2s") {
            SendStep::Resend(next, hint) => {
                assert_eq!(hint.expect("a wait").number, "2");
                turn = next;
            }
            end => return (times, Some(end)),
        }
    }
    (turn.times(), None)
}

#[test]
fn turns_are_sent_at_most_four_times() {
    assert!(matches!(sent(&[]), (1, None)));
    assert!(matches!(sent(&[200]), (1, Some(SendStep::ReadAnswer))));
    assert!(matches!(sent(&[429]), (2, None)));
    assert!(matches!(sent(&[429, 429, 200]), (3, Some(SendStep::ReadAnswer))));
    assert!(matches!(sent(&[429, 429, 429]), (4, None)));
    assert!(matches!(sent(&[429, 429, 429, 200]), (4, Some(SendStep::ReadAnswer))));
    assert!(matches!(sent(&[429; 9]), (4, Some(SendStep::Fail(Failure::Other)))));
    assert!(matches!(sent(&[429, 403, 429]), (2, Some(SendStep::Fail(Failure::BadKey)))));
}

#[test]
fn failures_are_classified() {
    assert_eq!(failure_kind(401, ""), Failure::BadKey);
    assert_eq!(failure_kind(403, ""), Failure::BadKey);
    assert_eq!(failure_kind(400, "Invalid API Key provided"), Failure::BadKey);
    assert_eq!(failure_kind(400, "Incorrect api key"), Failure::BadKey);
    assert_eq!(failure_kind(500, "Unauthorized"), Failure::BadKey);
    assert_eq!(failure_kind(404, "The MODEL was not found"), Failure::BadModel);
    assert_eq!(failure_kind(400, "model x does not exist"), Failure::BadModel);
    assert_eq!(failure_kind(400, "model decommissioned"), Failure::BadModel);
    assert_eq!(failure_kind(400, "context length exceeded"), Failure::TooBig);
    assert_eq!(failure_kind(400, "maximum context"), Failure::TooBig);
    assert_eq!(failure_kind(413, "context too large"), Failure::TooBig);
    assert_eq!(failure_kind(413, "context tokens"), Failure::TooBig);
    assert_eq!(failure_kind(500, "not found"), Failure::Other);
    assert_eq!(classify_failure(500, "boom"), Failure::Other);
}

#[test]
fn failures_are_explained() {
    assert_eq!(failure_reply(Failure::BadKey, "401 Unauthorized", "x"), BAD_KEY);
    assert_eq!(failure_reply(Failure::BadModel, "404 Not Found", "x"), BAD_MODEL);
    assert_eq!(failure_reply(Failure::TooBig, "400 Bad Request", "x"), TOO_BIG);
    assert_eq!(
        failure_reply(Failure::Other, "500 Internal Server Error", "boom"),
        "The AI service returned an error (500 Internal Server Error). boom"
    );
    let long = "y".repeat(400);
    let r = failure_reply(Failure::Other, "500", &long);
    assert_eq!(r, format!("The AI service returned an error (500). {}", "y".repeat(300)));
    assert!(is_cuttable(&long));
    let odd = format!("{}é{}", "y".repeat(299), "y".repeat(50));
    assert!(!is_cuttable(&odd));
    let even = format!("{}é{}", "y".repeat(298), "y".repeat(50));
    assert!(is_cuttable(&even));
    assert_eq!(
        failure_reply(Failure::Other, "500", &even),
        format!("The AI service returned an error (500). {}é", "y".repeat(298))
    );
}

#[test]
fn the_first_choice_answers() {
    assert_eq!(answer_of(&[Some("a".to_string()), Some("b".to_string())]), "a");
    assert_eq!(answer_of(&[None, Some("b".to_string())]), "");
    assert_eq!(answer_of(&[]), "");
}

#[test]
fn only_the_exchange_is_remembered() {
    let t = saved_turns("q", "a");
    assert_eq!(t.len(), 2);
    assert_eq!((t[0].role.as_str(), t[0].content.as_deref()), ("user", Some("q")));
    assert_eq!((t[1].role.as_str(), t[1].content.as_deref()), ("assistant", Some("a")));
}

#[test]
fn results_report_the_documents() {
    let r = conclude_turn("hi".to_string(), context("D", &["a.txt", "b.txt"], true));
    assert_eq!(r.answer, "hi");
    assert_eq!(r.sources, vec!["a.txt", "b.txt"]);
    assert_eq!(r.tools_used.len(), 1);
    assert_eq!(r.tools_used[0].tool, "documents");
    match &r.tools_used[0].detail {
        Json::Obj(fields) => {
            assert_eq!(fields[0].0, "in_context");
            assert!(matches!(&fields[0].1, Json::Arr(v) if v.len() == 2));
            assert!(matches!(fields[1].1, Json::Bool(true)));
        }
        _ => panic!("an object"),
    }
    assert!(conclude_turn(String::new(), context("", &[], false)).tools_used.is_empty());
}
