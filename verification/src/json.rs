//! JSON values: what requests carry in and replies carry out.
use vstd::prelude::*;

use crate::rag::score::Score;
use crate::search::same_text;

verus! {

/// A JSON value.
#[derive(Debug)]
pub enum Json {
    Null,
    Bool(bool),
    /// A whole number that is not negative.
    UInt(u64),
    /// A single-precision number.
    Real(Score),
    /// Any other number, as it is written.
    Number(String),
    Str(String),
    Arr(Vec<Json>),
    /// Names and values, in order.
    Obj(Vec<(String, Json)>),
}

/// What a [`Json`] stands for.
#[verifier::ext_equal]
pub enum JsonView {
    Null,
    Bool(bool),
    UInt(u64),
    Real(Score),
    Number(Seq<char>),
    Str(Seq<char>),
    Arr(Seq<JsonView>),
    Obj(Seq<(Seq<char>, JsonView)>),
}

/// What a value stands for.
pub open spec fn json_view(j: Json) -> JsonView
    decreases j,
{
    match j {
        Json::Null => JsonView::Null,
        Json::Bool(b) => JsonView::Bool(b),
        Json::UInt(n) => JsonView::UInt(n),
        Json::Real(s) => JsonView::Real(s),
        Json::Number(s) => JsonView::Number(s@),
        Json::Str(s) => JsonView::Str(s@),
        Json::Arr(v) => JsonView::Arr(
            Seq::new(
                v@.len(),
                |i: int|
                    if 0 <= i < v@.len() {
                        json_view(v@[i])
                    } else {
                        JsonView::Null
                    },
            ),
        ),
        Json::Obj(v) => JsonView::Obj(
            Seq::new(
                v@.len(),
                |i: int|
                    if 0 <= i < v@.len() {
                        (v@[i].0@, json_view(v@[i].1))
                    } else {
                        (Seq::empty(), JsonView::Null)
                    },
            ),
        ),
    }
}

impl View for Json {
    type V = JsonView;

    open spec fn view(&self) -> JsonView {
        json_view(*self)
    }
}

impl DeepView for Json {
    type V = JsonView;

    open spec fn deep_view(&self) -> JsonView {
        json_view(*self)
    }
}

// ── Reading ──────────────────────────────────────────────────────────────────

/// The value that stands under a name; the first if there are several.
pub open spec fn named(fields: Seq<(Seq<char>, JsonView)>, name: Seq<char>) -> Option<JsonView>
    decreases fields.len(),
{
    if fields.len() == 0 {
        None
    } else if fields[0].0 == name {
        Some(fields[0].1)
    } else {
        named(fields.drop_first(), name)
    }
}

/// The value that stands under a name in an object.
pub open spec fn field(j: JsonView, name: Seq<char>) -> Option<JsonView> {
    match j {
        JsonView::Obj(fields) => named(fields, name),
        _ => None,
    }
}

/// The text of an optional value that is a string.
pub open spec fn text_in(j: Option<JsonView>) -> Option<Seq<char>> {
    match j {
        Some(JsonView::Str(s)) => Some(s),
        _ => None,
    }
}

/// The first item of an optional value that is an array.
pub open spec fn first_in(j: Option<JsonView>) -> Option<JsonView> {
    match j {
        Some(JsonView::Arr(items)) => if items.len() > 0 {
            Some(items[0])
        } else {
            None
        },
        _ => None,
    }
}

/// A field of an optional value.
pub open spec fn field_in(j: Option<JsonView>, name: Seq<char>) -> Option<JsonView> {
    match j {
        Some(v) => field(v, name),
        None => None,
    }
}

/// What an optional value stands for.
pub open spec fn opt_view(j: Option<&Json>) -> Option<JsonView> {
    match j {
        Some(v) => Some(v@),
        None => None,
    }
}

/// The field of an optional value.
pub fn get<'a>(j: Option<&'a Json>, name: &str) -> (r: Option<&'a Json>)
    ensures
        opt_view(r) == field_in(opt_view(j), name@),
{
    match j {
        Some(Json::Obj(fields)) => {
            let ghost all = fields_view(fields@);
            let mut i: usize = 0;
            proof {
                assert(j->0@->Obj_0 =~= all);
                assert(all.skip(0) =~= all);
            }
            while i < fields.len()
                invariant
                    i <= fields@.len(),
                    all == fields_view(fields@),
                    all.len() == fields@.len(),
                    field_in(opt_view(j), name@) == named(all, name@),
                    named(all, name@) == named(all.skip(i as int), name@),
                decreases fields@.len() - i,
            {
                proof {
                    assert(all.skip(i as int)[0] == all[i as int]);
                    assert(all.skip(i as int).drop_first() =~= all.skip(i + 1));
                }
                if same_text(fields[i].0.as_str(), name) {
                    return Some(&fields[i].1);
                }
                i = i + 1;
            }
            None
        },
        _ => None,
    }
}

/// The text of an optional value that is a string.
pub fn text<'a>(j: Option<&'a Json>) -> (r: Option<&'a str>)
    ensures
        match r {
            Some(s) => text_in(opt_view(j)) == Some(s@),
            None => text_in(opt_view(j)) is None,
        },
{
    match j {
        Some(Json::Str(s)) => Some(s.as_str()),
        _ => None,
    }
}

/// The first item of an optional value that is an array.
pub fn first<'a>(j: Option<&'a Json>) -> (r: Option<&'a Json>)
    ensures
        opt_view(r) == first_in(opt_view(j)),
{
    match j {
        Some(Json::Arr(items)) => {
            proof {
                assert(j->0@->Arr_0 =~= items_view(items@));
            }
            if items.len() > 0 {
                Some(&items[0])
            } else {
                None
            }
        },
        _ => None,
    }
}

/// The first value of an optional value that is an object.
pub open spec fn first_value_in(j: Option<JsonView>) -> Option<JsonView> {
    match j {
        Some(JsonView::Obj(fields)) => if fields.len() > 0 {
            Some(fields[0].1)
        } else {
            None
        },
        _ => None,
    }
}

/// The first value of an optional value that is an object.
pub fn first_value<'a>(j: Option<&'a Json>) -> (r: Option<&'a Json>)
    ensures
        opt_view(r) == first_value_in(opt_view(j)),
{
    match j {
        Some(Json::Obj(fields)) => {
            proof {
                assert(j->0@->Obj_0 =~= fields_view(fields@));
            }
            if fields.len() > 0 {
                Some(&fields[0].1)
            } else {
                None
            }
        },
        _ => None,
    }
}

/// The number of an optional value that is a whole number and not negative.
pub open spec fn uint_in(j: Option<JsonView>) -> Option<u64> {
    match j {
        Some(JsonView::UInt(n)) => Some(n),
        _ => None,
    }
}

/// The number of an optional value that is a whole number and not negative.
pub fn uint(j: Option<&Json>) -> (r: Option<u64>)
    ensures
        r == uint_in(opt_view(j)),
{
    match j {
        Some(Json::UInt(n)) => Some(*n),
        _ => None,
    }
}

// ── Building ─────────────────────────────────────────────────────────────────

/// What names and values stand for.
pub open spec fn fields_view(v: Seq<(String, Json)>) -> Seq<(Seq<char>, JsonView)> {
    Seq::new(v.len(), |i: int| (v[i].0@, json_view(v[i].1)))
}

/// What items stand for.
pub open spec fn items_view(v: Seq<Json>) -> Seq<JsonView> {
    Seq::new(v.len(), |i: int| json_view(v[i]))
}

/// An object.
pub fn object(fields: Vec<(String, Json)>) -> (r: Json)
    ensures
        r@ == JsonView::Obj(fields_view(fields@)),
{
    let r = Json::Obj(fields);
    proof {
        assert(r@->Obj_0 =~= fields_view(fields@));
    }
    r
}

/// An array.
pub fn array(items: Vec<Json>) -> (r: Json)
    ensures
        r@ == JsonView::Arr(items_view(items@)),
{
    let r = Json::Arr(items);
    proof {
        assert(r@->Arr_0 =~= items_view(items@));
    }
    r
}

/// A string.
pub fn string(s: &str) -> (r: Json)
    ensures
        r@ == JsonView::Str(s@),
{
    Json::Str(s.to_owned())
}

/// Appends a name and a value.
pub fn put(fields: &mut Vec<(String, Json)>, name: &str, value: Json)
    ensures
        fields_view(final(fields)@) == fields_view(old(fields)@).push((name@, value@)),
{
    let ghost before = fields@;
    fields.push((name.to_owned(), value));
    proof {
        assert(fields_view(fields@) =~= fields_view(before).push((name@, value@)));
    }
}

/// Appends an item.
pub fn push_item(items: &mut Vec<Json>, value: Json)
    ensures
        items_view(final(items)@) == items_view(old(items)@).push(value@),
{
    let ghost before = items@;
    items.push(value);
    proof {
        assert(items_view(items@) =~= items_view(before).push(value@));
    }
}

/// The texts as strings of an array.
pub open spec fn strings_view(texts: Seq<Seq<char>>) -> JsonView {
    JsonView::Arr(texts.map_values(|t: Seq<char>| JsonView::Str(t)))
}

/// The texts as strings of an array.
pub fn strings(texts: &[String]) -> (r: Json)
    ensures
        r@ == strings_view(texts.deep_view()),
{
    let mut items: Vec<Json> = Vec::new();
    let mut i: usize = 0;
    while i < texts.len()
        invariant
            i <= texts@.len(),
            items@.len() == i,
            forall|k: int| 0 <= k < i ==> (#[trigger] items@[k])@ == JsonView::Str(texts@[k]@),
        decreases texts@.len() - i,
    {
        items.push(string(texts[i].as_str()));
        i = i + 1;
    }
    proof {
        let f = |t: Seq<char>| JsonView::Str(t);
        assert(items_view(items@) =~= texts.deep_view().map_values(f));
    }
    array(items)
}

/// An object of one error message.
pub open spec fn error_view(message: Seq<char>) -> JsonView {
    JsonView::Obj(seq![("error"@, JsonView::Str(message))])
}

/// An object of one error message.
pub fn error_object(message: &str) -> (r: Json)
    ensures
        r@ == error_view(message@),
{
    let mut fields: Vec<(String, Json)> = Vec::new();
    put(&mut fields, "error", string(message));
    let r = object(fields);
    proof {
        assert(r@->Obj_0 =~= seq![("error"@, JsonView::Str(message@))]);
    }
    r
}

} // verus!
