//! The tools that the model can call: their definitions, the choice of a tool,
//! and the texts that they answer.
use vstd::prelude::*;

use crate::json::{
    array, fields_view, field_in, first, first_in, first_value, first_value_in, get, items_view,
    object, push_item, put, string, text, text_in, uint, uint_in, Json, JsonView,
};
use crate::numbers::{grouped, hex_upper, push_grouped, push_hex_upper};
use crate::rag::types::{Hit, HitView};
use crate::search::same_text;
use crate::text::{chars_of, join, joined};

verus! {

// ── Definitions ──────────────────────────────────────────────────────────────

pub const SEARCH_TOOL: &'static str = "search_knowledge_base";

pub const CALCULATOR_TOOL: &'static str = "calculator";

pub const COUNTRY_TOOL: &'static str = "country_facts";

pub const SEARCH_DESCRIPTION: &'static str =
    "Search the Helios Robotics internal knowledge base for facts about the company, the H1 robot specifications, Helios Fleet pricing and plans, and support FAQs. Use this for ANY question about Helios, its products, pricing, specs, or support.";

pub const CALCULATOR_DESCRIPTION: &'static str =
    "Evaluate a basic arithmetic expression. Supports + - * / ** % and parentheses. Use this for totals, discounts, or unit conversions.";

pub const COUNTRY_DESCRIPTION: &'static str =
    "Look up live facts about a country (capital, population, region, currency) using the public REST Countries API. Use this for general geography questions NOT about Helios.";

/// The definition of a tool that takes one text.
pub open spec fn tool_view(
    name: Seq<char>,
    description: Seq<char>,
    argument: Seq<char>,
    meaning: Seq<char>,
) -> JsonView {
    JsonView::Obj(
        seq![
            ("type"@, JsonView::Str("function"@)),
            (
                "function"@,
                JsonView::Obj(
                    seq![
                        ("name"@, JsonView::Str(name)),
                        ("description"@, JsonView::Str(description)),
                        (
                            "parameters"@,
                            JsonView::Obj(
                                seq![
                                    ("type"@, JsonView::Str("object"@)),
                                    (
                                        "properties"@,
                                        JsonView::Obj(
                                            seq![
                                                (
                                                    argument,
                                                    JsonView::Obj(
                                                        seq![
                                                            ("type"@, JsonView::Str("string"@)),
                                                            (
                                                                "description"@,
                                                                JsonView::Str(meaning),
                                                            ),
                                                        ],
                                                    ),
                                                ),
                                            ],
                                        ),
                                    ),
                                    (
                                        "required"@,
                                        JsonView::Arr(seq![JsonView::Str(argument)]),
                                    ),
                                ],
                            ),
                        ),
                    ],
                ),
            ),
        ],
    )
}

fn tool(name: &str, description: &str, argument: &str, meaning: &str) -> (r: Json)
    ensures
        r@ == tool_view(name@, description@, argument@, meaning@),
{
    let mut about: Vec<(String, Json)> = Vec::new();
    put(&mut about, "type", string("string"));
    put(&mut about, "description", string(meaning));
    let mut properties: Vec<(String, Json)> = Vec::new();
    proof {
        assert(fields_view(about@) =~= seq![
            ("type"@, JsonView::Str("string"@)),
            ("description"@, JsonView::Str(meaning@)),
        ]);
    }
    put(&mut properties, argument, object(about));
    let mut required: Vec<Json> = Vec::new();
    push_item(&mut required, string(argument));
    let mut parameters: Vec<(String, Json)> = Vec::new();
    put(&mut parameters, "type", string("object"));
    let ghost props = fields_view(properties@);
    put(&mut parameters, "properties", object(properties));
    let ghost reqs = items_view(required@);
    put(&mut parameters, "required", array(required));
    let mut function: Vec<(String, Json)> = Vec::new();
    put(&mut function, "name", string(name));
    put(&mut function, "description", string(description));
    let ghost params = fields_view(parameters@);
    put(&mut function, "parameters", object(parameters));
    let mut whole: Vec<(String, Json)> = Vec::new();
    put(&mut whole, "type", string("function"));
    let ghost func = fields_view(function@);
    put(&mut whole, "function", object(function));
    proof {
        let inner = seq![
            ("type"@, JsonView::Str("string"@)),
            ("description"@, JsonView::Str(meaning@)),
        ];
        assert(props =~= seq![(argument@, JsonView::Obj(inner))]);
        assert(reqs =~= seq![JsonView::Str(argument@)]);
        assert(params =~= seq![
            ("type"@, JsonView::Str("object"@)),
            ("properties"@, JsonView::Obj(props)),
            ("required"@, JsonView::Arr(reqs)),
        ]);
        assert(func =~= seq![
            ("name"@, JsonView::Str(name@)),
            ("description"@, JsonView::Str(description@)),
            ("parameters"@, JsonView::Obj(params)),
        ]);
        assert(fields_view(whole@) =~= seq![
            ("type"@, JsonView::Str("function"@)),
            ("function"@, JsonView::Obj(func)),
        ]);
    }
    object(whole)
}

/// The definitions of all tools.
pub open spec fn definitions() -> JsonView {
    JsonView::Arr(
        seq![
            tool_view(SEARCH_TOOL@, SEARCH_DESCRIPTION@, "query"@, "The search query"@),
            tool_view(
                CALCULATOR_TOOL@,
                CALCULATOR_DESCRIPTION@,
                "expression"@,
                "A plain math expression like '90 * 12 * 0.85'"@,
            ),
            tool_view(
                COUNTRY_TOOL@,
                COUNTRY_DESCRIPTION@,
                "country"@,
                "Country name, e.g. 'Portugal'"@,
            ),
        ],
    )
}

/// The definitions of all tools, as they are sent to the model.
pub fn tool_definitions() -> (r: Json)
    ensures
        r@ == definitions(),
{
    let mut items: Vec<Json> = Vec::new();
    push_item(&mut items, tool(SEARCH_TOOL, SEARCH_DESCRIPTION, "query", "The search query"));
    push_item(
        &mut items,
        tool(
            CALCULATOR_TOOL,
            CALCULATOR_DESCRIPTION,
            "expression",
            "A plain math expression like '90 * 12 * 0.85'",
        ),
    );
    push_item(
        &mut items,
        tool(COUNTRY_TOOL, COUNTRY_DESCRIPTION, "country", "Country name, e.g. 'Portugal'"),
    );
    proof {
        assert(items_view(items@) =~= definitions()->Arr_0);
    }
    array(items)
}

// ── Choosing ─────────────────────────────────────────────────────────────────

/// What a call of a tool asks for.
#[derive(Debug)]
pub enum ToolRequest {
    /// Search the documents.
    Search(String),
    /// Evaluate an expression.
    Calculate(String),
    /// Look up a country.
    Country(String),
    /// There is no such tool; the reply to that.
    Unknown(String),
}

/// What a [`ToolRequest`] stands for.
#[verifier::ext_equal]
pub enum RequestView {
    Search(Seq<char>),
    Calculate(Seq<char>),
    Country(Seq<char>),
    Unknown(Seq<char>),
}

impl View for ToolRequest {
    type V = RequestView;

    open spec fn view(&self) -> RequestView {
        match self {
            ToolRequest::Search(s) => RequestView::Search(s@),
            ToolRequest::Calculate(s) => RequestView::Calculate(s@),
            ToolRequest::Country(s) => RequestView::Country(s@),
            ToolRequest::Unknown(s) => RequestView::Unknown(s@),
        }
    }
}

/// The argument of a call: empty if it is missing or no text.
pub open spec fn argument(args: JsonView, name: Seq<char>) -> Seq<char> {
    match text_in(field_in(Some(args), name)) {
        Some(s) => s,
        None => Seq::empty(),
    }
}

fn argument_of(args: &Json, name: &str) -> (r: String)
    ensures
        r@ == argument(args@, name@),
{
    match text(get(Some(args), name)) {
        Some(s) => s.to_owned(),
        None => String::new(),
    }
}

/// What a call of a tool asks for.
pub open spec fn requested(name: Seq<char>, args: JsonView) -> RequestView {
    if name == SEARCH_TOOL@ {
        RequestView::Search(argument(args, "query"@))
    } else if name == CALCULATOR_TOOL@ {
        RequestView::Calculate(argument(args, "expression"@))
    } else if name == COUNTRY_TOOL@ {
        RequestView::Country(argument(args, "country"@))
    } else {
        RequestView::Unknown("Unknown tool '"@ + name + "'."@)
    }
}

/// What a call of a tool asks for.
pub fn dispatch(name: &str, args: &Json) -> (r: ToolRequest)
    ensures
        r@ == requested(name@, args@),
{
    if same_text(name, SEARCH_TOOL) {
        ToolRequest::Search(argument_of(args, "query"))
    } else if same_text(name, CALCULATOR_TOOL) {
        ToolRequest::Calculate(argument_of(args, "expression"))
    } else if same_text(name, COUNTRY_TOOL) {
        ToolRequest::Country(argument_of(args, "country"))
    } else {
        let mut r = "Unknown tool '".to_owned();
        r.push_str(name);
        r.push_str("'.");
        ToolRequest::Unknown(r)
    }
}

// ── Searching ────────────────────────────────────────────────────────────────

/// How many chunks the search tool asks for.
pub const SEARCH_HITS: usize = 4;

/// One hit in the reply of the search tool, `score` being its score in words.
pub open spec fn found_text(h: HitView, score: Seq<char>) -> Seq<char> {
    "[source: "@ + h.source + " | score: "@ + score + "]\n"@ + h.text
}

/// The reply of the search tool.
pub open spec fn search_reply(hits: Seq<HitView>, scores: Seq<Seq<char>>) -> Seq<char> {
    if hits.len() == 0 {
        "No relevant documents found."@
    } else {
        join(hits.map(|i: int, h: HitView| found_text(h, scores[i])), "\n\n---\n\n"@)
    }
}

/// The reply of the search tool. The scores of the hits come in words.
pub fn run_rag(hits: &[Hit], scores: &[String]) -> (r: String)
    requires
        scores@.len() == hits@.len(),
    ensures
        r@ == search_reply(hits.deep_view(), scores.deep_view()),
{
    if hits.len() == 0 {
        return "No relevant documents found.".to_owned();
    }
    let mut parts: Vec<String> = Vec::new();
    let mut i: usize = 0;
    while i < hits.len()
        invariant
            i <= hits@.len(),
            scores@.len() == hits@.len(),
            parts@.len() == i,
            forall|k: int|
                0 <= k < i ==> (#[trigger] parts@[k])@ == found_text(hits@[k]@, scores@[k]@),
        decreases hits@.len() - i,
    {
        let mut p = "[source: ".to_owned();
        p.push_str(hits[i].source.as_str());
        p.push_str(" | score: ");
        p.push_str(scores[i].as_str());
        p.push_str("]\n");
        p.push_str(hits[i].text.as_str());
        parts.push(p);
        i = i + 1;
    }
    proof {
        assert(parts.deep_view() =~= hits.deep_view().map(
            |i: int, h: HitView| found_text(h, scores.deep_view()[i]),
        ));
    }
    joined(&parts, "\n\n---\n\n")
}

/// The reply of the search tool to a search that failed.
pub fn search_failed(error: &str) -> (r: String)
    ensures
        r@ == "Knowledge base search failed: "@ + error@,
{
    let mut r = "Knowledge base search failed: ".to_owned();
    r.push_str(error);
    r
}

// ── URLs ─────────────────────────────────────────────────────────────────────

/// A character that stands for itself in a URL.
pub open spec fn unreserved(c: char) -> bool {
    'A' <= c <= 'Z' || 'a' <= c <= 'z' || '0' <= c <= '9' || c == '-' || c == '_' || c == '.' || c
        == '~'
}

/// A character as it stands in a URL: itself, or a percent sign and its code
/// point in at least two hexadecimal digits.
pub open spec fn encoded_char(c: char) -> Seq<char> {
    if unreserved(c) {
        seq![c]
    } else if (c as u32) < 16 {
        "%0"@ + hex_upper(c as u32 as nat)
    } else {
        "%"@ + hex_upper(c as u32 as nat)
    }
}

/// A text as it stands in a URL.
pub open spec fn encoded(s: Seq<char>) -> Seq<char>
    decreases s.len(),
{
    if s.len() == 0 {
        Seq::empty()
    } else {
        encoded(s.drop_last()) + encoded_char(s.last())
    }
}

/// A text as it stands in a URL.
pub fn encode(s: &str) -> (r: String)
    ensures
        r@ == encoded(s@),
{
    let cs = chars_of(s);
    let mut r = String::new();
    let mut i: usize = 0;
    proof {
        assert(cs@.take(0) =~= Seq::<char>::empty());
    }
    while i < cs.len()
        invariant
            i <= cs@.len(),
            r@ == encoded(cs@.take(i as int)),
        decreases cs@.len() - i,
    {
        let c = cs[i];
        let ghost before = r@;
        proof {
            let next = cs@.take(i + 1);
            assert(next.drop_last() =~= cs@.take(i as int));
            assert(next.last() == c);
        }
        if ('A' <= c && c <= 'Z') || ('a' <= c && c <= 'z') || ('0' <= c && c <= '9') || c == '-'
            || c == '_' || c == '.' || c == '~' {
            r.push(c);
            proof {
                assert(r@ =~= before + seq![c]);
            }
        } else {
            let n = c as u32;
            if n < 16 {
                r.push_str("%0");
            } else {
                r.push_str("%");
            }
            push_hex_upper(&mut r, n);
            proof {
                assert(r@ =~= before + encoded_char(c));
            }
        }
        i = i + 1;
    }
    proof {
        assert(cs@.take(i as int) =~= cs@);
    }
    r
}

// ── Countries ────────────────────────────────────────────────────────────────

/// Where the facts of a country are looked up.
pub open spec fn country_address(country: Seq<char>) -> Seq<char> {
    "https://restcountries.com/v3.1/name/"@ + encoded(country)
        + "?fields=name,capital,population,region,currencies"@
}

/// Where the facts of a country are looked up.
pub fn country_url(country: &str) -> (r: String)
    ensures
        r@ == country_address(country@),
{
    let mut r = "https://restcountries.com/v3.1/name/".to_owned();
    let e = encode(country);
    r.push_str(e.as_str());
    r.push_str("?fields=name,capital,population,region,currencies");
    r
}

/// A text, or another in its place.
pub open spec fn text_or(t: Option<Seq<char>>, other: Seq<char>) -> Seq<char> {
    match t {
        Some(s) => s,
        None => other,
    }
}

/// What is said of a country, by the first item of what was looked up.
pub open spec fn country_summary(country: Seq<char>, c: JsonView) -> Seq<char> {
    let name = text_or(text_in(field_in(field_in(Some(c), "name"@), "common"@)), country);
    let capital = text_or(text_in(first_in(field_in(Some(c), "capital"@))), "unknown"@);
    let population = match uint_in(field_in(Some(c), "population"@)) {
        Some(n) => grouped(n as nat),
        None => "unknown"@,
    };
    let region = text_or(text_in(field_in(Some(c), "region"@)), "unknown"@);
    let currency = text_or(
        text_in(field_in(first_value_in(field_in(Some(c), "currencies"@)), "name"@)),
        "unknown"@,
    );
    name + ": capital "@ + capital + ", population ~"@ + population + ", region "@ + region
        + ", currency "@ + currency + "."@
}

/// What the lookup of a country is answered.
pub open spec fn country_reply(country: Seq<char>, data: JsonView) -> Seq<char> {
    match first_in(Some(data)) {
        None => "No data for '"@ + country + "'."@,
        Some(c) => country_summary(country, c),
    }
}

fn push_text_or(r: &mut String, t: Option<&str>, other: &str)
    ensures
        final(r)@ == old(r)@ + match t {
            Some(s) => s@,
            None => other@,
        },
{
    match t {
        Some(s) => r.push_str(s),
        None => r.push_str(other),
    }
}

/// What the lookup of a country is answered, by what was looked up.
pub fn run_country_facts(country: &str, data: &Json) -> (r: String)
    ensures
        r@ == country_reply(country@, data@),
{
    let c = match first(Some(data)) {
        None => {
            let mut r = "No data for '".to_owned();
            r.push_str(country);
            r.push_str("'.");
            return r;
        },
        Some(c) => c,
    };
    let name = text(get(get(Some(c), "name"), "common"));
    let capital = text(first(get(Some(c), "capital")));
    let population = uint(get(Some(c), "population"));
    let region = text(get(Some(c), "region"));
    let currency = text(get(first_value(get(Some(c), "currencies")), "name"));
    let mut r = String::new();
    push_text_or(&mut r, name, country);
    r.push_str(": capital ");
    push_text_or(&mut r, capital, "unknown");
    r.push_str(", population ~");
    match population {
        Some(n) => push_grouped(&mut r, n),
        None => r.push_str("unknown"),
    }
    r.push_str(", region ");
    push_text_or(&mut r, region, "unknown");
    r.push_str(", currency ");
    push_text_or(&mut r, currency, "unknown");
    r.push_str(".");
    proof {
        assert(r@ =~= country_summary(country@, c@));
    }
    r
}

/// The reply when a country could not be looked up at all.
pub fn country_unreachable(error: &str) -> (r: String)
    ensures
        r@ == "Could not reach country API: "@ + error@ + ". Check your internet connection."@,
{
    let mut r = "Could not reach country API: ".to_owned();
    r.push_str(error);
    r.push_str(". Check your internet connection.");
    r
}

/// The reply when there is no such country.
pub fn country_not_found(country: &str) -> (r: String)
    ensures
        r@ == "Country '"@ + country@ + "' not found."@,
{
    let mut r = "Country '".to_owned();
    r.push_str(country);
    r.push_str("' not found.");
    r
}

/// The reply when what was looked up is no JSON.
pub fn country_unreadable(error: &str) -> (r: String)
    ensures
        r@ == "Country API parse error: "@ + error@,
{
    let mut r = "Country API parse error: ".to_owned();
    r.push_str(error);
    r
}

// ── Laws ─────────────────────────────────────────────────────────────────────

/// An encoded text holds only characters that may stand in a URL.
pub proof fn encoded_texts_are_safe(s: Seq<char>)
    ensures
        forall|i: int|
            0 <= i < encoded(s).len() ==> unreserved(#[trigger] encoded(s)[i]) || encoded(s)[i]
                == '%',
    decreases s.len(),
{
    if s.len() > 0 {
        reveal_strlit("%");
        reveal_strlit("%0");
        let d = encoded(s.drop_last());
        let e = encoded_char(s.last());
        encoded_texts_are_safe(s.drop_last());
        lemma_hex_unreserved(s.last() as u32 as nat);
        let h = hex_upper(s.last() as u32 as nat);
        assert forall|i: int| 0 <= i < e.len() implies unreserved(#[trigger] e[i]) || e[i]
            == '%' by {
            if !unreserved(s.last()) {
                if (s.last() as u32) < 16 {
                    if i >= 2 {
                        assert(e[i] == h[i - 2]);
                    }
                } else if i >= 1 {
                    assert(e[i] == h[i - 1]);
                }
            }
        }
        assert forall|i: int| 0 <= i < encoded(s).len() implies unreserved(
            #[trigger] encoded(s)[i],
        ) || encoded(s)[i] == '%' by {
            if i < d.len() {
                assert(encoded(s)[i] == d[i]);
            } else {
                assert(encoded(s)[i] == e[i - d.len()]);
            }
        }
    }
}

proof fn lemma_hex_unreserved(n: nat)
    ensures
        forall|i: int| 0 <= i < hex_upper(n).len() ==> unreserved(#[trigger] hex_upper(n)[i]),
    decreases n,
{
    if n >= 16 {
        lemma_hex_unreserved(n / 16);
        let p = hex_upper(n / 16);
        assert forall|i: int| 0 <= i < hex_upper(n).len() implies unreserved(
            #[trigger] hex_upper(n)[i],
        ) by {
            if i < p.len() {
                assert(hex_upper(n)[i] == p[i]);
            }
        }
    }
}

/// A text of unreserved characters stands for itself.
pub proof fn plain_texts_encode_to_themselves(s: Seq<char>)
    requires
        forall|i: int| 0 <= i < s.len() ==> unreserved(#[trigger] s[i]),
    ensures
        encoded(s) == s,
    decreases s.len(),
{
    if s.len() > 0 {
        assert(unreserved(s[s.len() - 1]));
        plain_texts_encode_to_themselves(s.drop_last());
        assert(s.drop_last() + seq![s.last()] =~= s);
    }
}

} // verus!
