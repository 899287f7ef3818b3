//! The tools of the model.
use agent_toolkit::json::Json;
use agent_toolkit::rag::score::Score;
use agent_toolkit::rag::types::{Hit, HitSource};
use agent_toolkit::tools::{
    country_not_found, country_unreachable, country_unreadable, country_url, dispatch, encode,
    run_country_facts, run_rag, search_failed, tool_definitions, ToolRequest, SEARCH_HITS,
};

fn value(j: &Json) -> serde_json::Value {
    match j {
        Json::Null => serde_json::Value::Null,
        Json::Bool(b) => serde_json::Value::Bool(*b),
        Json::UInt(n) => serde_json::Value::from(*n),
        Json::Real(s) => serde_json::Value::from(f32::from_bits(s.bits)),
        Json::Number(t) => serde_json::from_str(t).unwrap(),
        Json::Str(s) => serde_json::Value::from(s.as_str()),
        Json::Arr(v) => serde_json::Value::Array(v.iter().map(value).collect()),
        Json::Obj(v) => {
            serde_json::Value::Object(v.iter().map(|(k, x)| (k.clone(), value(x))).collect())
        }
    }
}

fn json(v: &serde_json::Value) -> Json {
    match v {
        serde_json::Value::Null => Json::Null,
        serde_json::Value::Bool(b) => Json::Bool(*b),
        serde_json::Value::Number(n) => match n.as_u64() {
            Some(u) => Json::UInt(u),
            None => Json::Number(n.to_string()),
        },
        serde_json::Value::String(s) => Json::Str(s.clone()),
        serde_json::Value::Array(a) => Json::Arr(a.iter().map(json).collect()),
        serde_json::Value::Object(o) => {
            Json::Obj(o.iter().map(|(k, x)| (k.clone(), json(x))).collect())
        }
    }
}

fn parse(text: &str) -> Json {
    json(&serde_json::from_str(text).unwrap())
}

#[test]
fn definitions_name_the_tools() {
    let v = value(&tool_definitions());
    let names: Vec<&str> =
        v.as_array().unwrap().iter().map(|t| t["function"]["name"].as_str().unwrap()).collect();
    assert_eq!(names, vec!["search_knowledge_base", "calculator", "country_facts"]);
    let expected: serde_json::Value = serde_json::from_str(
        r#"{
            "type": "function",
            "function": {
                "name": "calculator",
                "description": "Evaluate a basic arithmetic expression. Supports + - * / ** % and parentheses. Use this for totals, discounts, or unit conversions.",
                "parameters": {
                    "type": "object",
                    "properties": {
                        "expression": {
                            "type": "string",
                            "description": "A plain math expression like '90 * 12 * 0.85'"
                        }
                    },
                    "required": ["expression"]
                }
            }
        }"#,
    )
    .unwrap();
    assert_eq!(v[1], expected);
    assert_eq!(v[0]["function"]["parameters"]["required"][0], "query");
    assert_eq!(
        v[2]["function"]["parameters"]["properties"]["country"]["description"],
        "Country name, e.g. 'Portugal'"
    );
}

#[test]
fn calls_are_dispatched() {
    let q = dispatch("search_knowledge_base", &parse(r#"{"query": "battery"}"#));
    assert!(matches!(q, ToolRequest::Search(s) if s == "battery"));
    let q = dispatch("calculator", &parse(r#"{"expression": "1+1"}"#));
    assert!(matches!(q, ToolRequest::Calculate(s) if s == "1+1"));
    let q = dispatch("country_facts", &parse(r#"{"country": "Portugal"}"#));
    assert!(matches!(q, ToolRequest::Country(s) if s == "Portugal"));
    let q = dispatch("calculator", &parse(r#"{"expression": 7}"#));
    assert!(matches!(q, ToolRequest::Calculate(s) if s.is_empty()));
    let q = dispatch("calculator", &Json::Null);
    assert!(matches!(q, ToolRequest::Calculate(s) if s.is_empty()));
    let q = dispatch("rm", &Json::Null);
    assert!(matches!(q, ToolRequest::Unknown(s) if s == "Unknown tool 'rm'."));
}

#[test]
fn search_results_are_listed() {
    let hit = |source: &str, text: &str, score: f32| Hit {
        text: text.to_string(),
        source: source.to_string(),
        score: Score { bits: score.to_bits() },
        document_id: String::new(),
        chunk_id: 0,
        retrieval: HitSource::Keyword,
    };
    let hits = [hit("a.txt", "alpha", 1.0), hit("b.txt", "beta", 0.25)];
    let labels: Vec<String> =
        hits.iter().map(|h| format!("{:.3}", f32::from_bits(h.score.bits))).collect();
    assert_eq!(
        run_rag(&hits, &labels),
        "[source: a.txt | score: 1.000]\nalpha\n\n---\n\n[source: b.txt | score: 0.250]\nbeta"
    );
    assert_eq!(run_rag(&[], &[]), "No relevant documents found.");
    assert_eq!(search_failed("down"), "Knowledge base search failed: down");
    assert_eq!(SEARCH_HITS, 4);
}

#[test]
fn urls_are_encoded() {
    assert_eq!(encode("Portugal"), "Portugal");
    assert_eq!(encode("New Zealand"), "New%20Zealand");
    assert_eq!(encode("a-b_c.d~e"), "a-b_c.d~e");
    assert_eq!(encode("a/b?c&d"), "a%2Fb%3Fc%26d");
    assert_eq!(encode("\n"), "%0A");
    assert_eq!(encode("Türkiye"), "T%FCrkiye");
    assert_eq!(encode("日"), "%65E5");
    assert_eq!(
        country_url("New Zealand"),
        "https://restcountries.com/v3.1/name/New%20Zealand?fields=name,capital,population,region,currencies"
    );
}

#[test]
fn countries_are_summed_up() {
    let data = parse(
        r#"[{"name": {"common": "Portugal"}, "capital": ["Lisbon"], "population": 10305564,
            "region": "Europe", "currencies": {"EUR": {"name": "Euro"}}}]"#,
    );
    assert_eq!(
        run_country_facts("portugal", &data),
        "Portugal: capital Lisbon, population ~10,305,564, region Europe, currency Euro."
    );
    assert_eq!(
        run_country_facts("nowhere", &parse("[{}]")),
        "nowhere: capital unknown, population ~unknown, region unknown, currency unknown."
    );
    assert_eq!(
        run_country_facts("x", &parse(r#"[{"population": 999}]"#)),
        "x: capital unknown, population ~999, region unknown, currency unknown."
    );
    assert_eq!(
        run_country_facts("x", &parse(r#"[{"population": 1000, "capital": []}]"#)),
        "x: capital unknown, population ~1,000, region unknown, currency unknown."
    );
    assert_eq!(run_country_facts("x", &parse("[]")), "No data for 'x'.");
    assert_eq!(run_country_facts("x", &parse("{}")), "No data for 'x'.");
    assert_eq!(
        country_unreachable("timeout"),
        "Could not reach country API: timeout. Check your internet connection."
    );
    assert_eq!(country_not_found("x"), "Country 'x' not found.");
    assert_eq!(country_unreadable("eof"), "Country API parse error: eof");
}
