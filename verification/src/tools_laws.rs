//! What the tools of the model are asked and what they answer.
use vstd::prelude::*;

use crate::json::{field, field_in, first_in, first_value_in, named, text_in, uint_in, JsonView};
use crate::numbers::{grouped, hex_upper};
use crate::rag::types::HitView;
use crate::text_laws::{joining_puts_separators_between, lemma_flatten_push};
use crate::tools::{
    country_address, country_reply, definitions, encoded, encoded_char, found_text, requested,
    search_reply, tool_view, RequestView, CALCULATOR_DESCRIPTION, CALCULATOR_TOOL,
    COUNTRY_DESCRIPTION, COUNTRY_TOOL, SEARCH_DESCRIPTION, SEARCH_TOOL,
};

verus! {

// ── Calls ────────────────────────────────────────────────────────────────────

/// The text under a name in the arguments of a call, or nothing where there is no
/// text.
pub open spec fn text_under(args: JsonView, name: Seq<char>, t: Seq<char>) -> bool {
    match field(args, name) {
        Some(JsonView::Str(s)) => t == s,
        _ => t.len() == 0,
    }
}

/// A call goes to the tool of its name with its argument, and a name that is not
/// known is answered.
pub proof fn calls_go_to_their_tool(name: Seq<char>, args: JsonView)
    ensures
        name == "search_knowledge_base"@ ==> requested(name, args) is Search && text_under(
            args,
            "query"@,
            requested(name, args)->Search_0,
        ),
        name == "calculator"@ ==> requested(name, args) is Calculate && text_under(
            args,
            "expression"@,
            requested(name, args)->Calculate_0,
        ),
        name == "country_facts"@ ==> requested(name, args) is Country && text_under(
            args,
            "country"@,
            requested(name, args)->Country_0,
        ),
        name != "search_knowledge_base"@ && name != "calculator"@ && name != "country_facts"@
            ==> requested(name, args) == RequestView::Unknown("Unknown tool '"@ + name + "'."@),
{
    reveal_strlit("search_knowledge_base");
    reveal_strlit("calculator");
    reveal_strlit("country_facts");
    assert("search_knowledge_base"@[0] == 's');
    assert("calculator"@[1] == 'a');
    assert("country_facts"@[1] == 'o');
    assert("country_facts"@[0] == 'c');
}

/// A search is answered with every hit, in order: its source, its score and its
/// text, with a line between each two.
pub proof fn searches_are_answered_with_every_hit(hits: Seq<HitView>, scores: Seq<Seq<char>>)
    ensures
        hits.len() == 0 ==> search_reply(hits, scores) == "No relevant documents found."@,
        hits.len() > 0 ==> "\n\n---\n\n"@ + search_reply(hits, scores) == Seq::new(
            hits.len(),
            |i: int|
                "\n\n---\n\n"@ + ("[source: "@ + hits[i].source + " | score: "@ + scores[i] + "]\n"@
                    + hits[i].text),
        ).flatten(),
{
    if hits.len() > 0 {
        let parts = hits.map(|i: int, h: HitView| found_text(h, scores[i]));
        joining_puts_separators_between(parts, "\n\n---\n\n"@);
        assert(parts.map_values(|p: Seq<char>| "\n\n---\n\n"@ + p) =~= Seq::new(
            hits.len(),
            |i: int|
                "\n\n---\n\n"@ + ("[source: "@ + hits[i].source + " | score: "@ + scores[i] + "]\n"@
                    + hits[i].text),
        ));
    }
}

// ── URLs ─────────────────────────────────────────────────────────────────────

/// A text is encoded character by character.
pub proof fn texts_are_encoded_by_character(s: Seq<char>)
    ensures
        encoded(s) == s.map_values(|c: char| encoded_char(c)).flatten(),
    decreases s.len(),
{
    let f = |c: char| encoded_char(c);
    if s.len() == 0 {
        assert(s.map_values(f).flatten() =~= Seq::<char>::empty());
    } else {
        let d = s.drop_last();
        texts_are_encoded_by_character(d);
        assert(s.map_values(f) =~= d.map_values(f).push(f(s.last())));
        lemma_flatten_push(d.map_values(f), f(s.last()));
    }
}

/// ASCII letters, digits and four marks stand for themselves; any other character
/// is a percent sign and its code point in hexadecimal, of two digits at least.
pub proof fn other_characters_are_encoded(c: char)
    ensures
        ({
            let plain = 'A' <= c <= 'Z' || 'a' <= c <= 'z' || '0' <= c <= '9' || c == '-' || c
                == '_' || c == '.' || c == '~';
            &&& plain ==> encoded_char(c) == seq![c]
            &&& !plain && (c as u32) >= 16 ==> encoded_char(c) == seq!['%'] + hex_upper(
                c as u32 as nat,
            )
            &&& !plain && (c as u32) < 16 ==> encoded_char(c) == seq!['%', '0'] + hex_upper(
                c as u32 as nat,
            )
        }),
{
    reveal_strlit("%");
    reveal_strlit("%0");
    assert("%"@ =~= seq!['%']);
    assert("%0"@ =~= seq!['%', '0']);
}

// ── Countries ────────────────────────────────────────────────────────────────

/// A country is looked up under its encoded name.
pub proof fn countries_are_looked_up_by_name(country: Seq<char>)
    ensures
        country_address(country) == "https://restcountries.com/v3.1/name/"@ + encoded(country)
            + "?fields=name,capital,population,region,currencies"@,
{
}

/// What is said of a country, given the five facts.
pub open spec fn sentence(
    name: Seq<char>,
    capital: Seq<char>,
    population: Seq<char>,
    region: Seq<char>,
    currency: Seq<char>,
) -> Seq<char> {
    name + ": capital "@ + capital + ", population ~"@ + population + ", region "@ + region
        + ", currency "@ + currency + "."@
}

/// A fact that was found, or what stands for one that was not.
pub open spec fn fact(found: Option<Seq<char>>, other: Seq<char>) -> Seq<char> {
    if found is Some {
        found.unwrap()
    } else {
        other
    }
}

/// The field of a field.
pub open spec fn within(j: JsonView, outer: Seq<char>, inner: Seq<char>) -> Option<JsonView> {
    match field(j, outer) {
        Some(v) => field(v, inner),
        None => None,
    }
}

/// The facts of a country are read from the first item that was looked up: its
/// common name, its first capital, its population in groups of three digits, its
/// region and the name of its first currency. A fact that is missing is unknown,
/// and a missing name is the one that was asked for.
pub proof fn countries_are_answered_from_the_first_item(
    country: Seq<char>,
    items: Seq<JsonView>,
    data: JsonView,
)
    ensures
        items.len() > 0 ==> ({
            let c = items[0];
            let currency = match first_value_in(field(c, "currencies"@)) {
                Some(v) => text_in(field(v, "name"@)),
                None => None,
            };
            country_reply(country, JsonView::Arr(items)) == sentence(
                fact(text_in(within(c, "name"@, "common"@)), country),
                fact(text_in(first_in(field(c, "capital"@))), "unknown"@),
                match uint_in(field(c, "population"@)) {
                    Some(n) => grouped(n as nat),
                    None => "unknown"@,
                },
                fact(text_in(field(c, "region"@)), "unknown"@),
                fact(currency, "unknown"@),
            )
        }),
        first_in(Some(data)) is None ==> country_reply(country, data) == "No data for '"@ + country
            + "'."@,
{
}

// ── Definitions ──────────────────────────────────────────────────────────────

/// A definition tells the name of its tool and one argument, a text that is
/// required.
pub open spec fn defines(d: JsonView, name: Seq<char>, argument: Seq<char>) -> bool {
    let function = field(d, "function"@);
    let parameters = field_in(function, "parameters"@);
    &&& text_in(field(d, "type"@)) == Some("function"@)
    &&& text_in(field_in(function, "name"@)) == Some(name)
    &&& text_in(field_in(parameters, "type"@)) == Some("object"@)
    &&& text_in(
        field_in(field_in(field_in(parameters, "properties"@), argument), "type"@),
    ) == Some("string"@)
    &&& field_in(parameters, "required"@) == Some(JsonView::Arr(seq![JsonView::Str(argument)]))
}

proof fn lemma_defines(
    name: Seq<char>,
    description: Seq<char>,
    argument: Seq<char>,
    meaning: Seq<char>,
)
    ensures
        defines(tool_view(name, description, argument, meaning), name, argument),
{
    reveal_strlit("type");
    reveal_strlit("function");
    reveal_strlit("name");
    reveal_strlit("description");
    reveal_strlit("parameters");
    reveal_strlit("properties");
    reveal_strlit("required");
    reveal_with_fuel(named, 4);
    assert("type"@[0] == 't');
    assert("function"@[0] == 'f');
    assert("name"@[0] == 'n');
    assert("description"@[0] == 'd');
    assert("parameters"@.len() == 10);
    assert("properties"@[2] == 'o');
    assert("required"@[0] == 'r');
}

/// The model is told of the three tools, each with the argument that a call of it
/// is read by.
pub proof fn tools_are_defined()
    ensures
        ({
            let tools = definitions()->Arr_0;
            &&& definitions() is Arr
            &&& tools.len() == 3
            &&& defines(tools[0], "search_knowledge_base"@, "query"@)
            &&& defines(tools[1], "calculator"@, "expression"@)
            &&& defines(tools[2], "country_facts"@, "country"@)
        }),
{
    lemma_defines(SEARCH_TOOL@, SEARCH_DESCRIPTION@, "query"@, "The search query"@);
    lemma_defines(
        CALCULATOR_TOOL@,
        CALCULATOR_DESCRIPTION@,
        "expression"@,
        "A plain math expression like '90 * 12 * 0.85'"@,
    );
    lemma_defines(
        COUNTRY_TOOL@,
        COUNTRY_DESCRIPTION@,
        "country"@,
        "Country name, e.g. 'Portugal'"@,
    );
}

} // verus!
