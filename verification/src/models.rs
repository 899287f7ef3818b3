//! The list of models that a service offers.
use vstd::prelude::*;

use crate::order::{sorted_by, stable_sort, Ranked};
use crate::search::{comes_before, strip_end, text_before, text_strip_end};
use crate::text::opt_text;

verus! {

/// A model of the service.
#[derive(Debug)]
pub struct Model {
    pub id: String,
    /// A name for people.
    pub name: String,
}

/// What a [`Model`] stands for.
#[verifier::ext_equal]
pub struct ModelView {
    pub id: Seq<char>,
    pub name: Seq<char>,
}

impl DeepView for Model {
    type V = ModelView;

    open spec fn deep_view(&self) -> ModelView {
        ModelView { id: self.id@, name: self.name@ }
    }
}

/// A model as the service lists it.
#[derive(Debug)]
pub struct ModelRaw {
    pub id: String,
    pub name: Option<String>,
}

/// What a [`ModelRaw`] stands for.
#[verifier::ext_equal]
pub struct ModelRawView {
    pub id: Seq<char>,
    pub name: Option<Seq<char>>,
}

impl DeepView for ModelRaw {
    type V = ModelRawView;

    open spec fn deep_view(&self) -> ModelRawView {
        ModelRawView { id: self.id@, name: opt_text(self.name) }
    }
}

/// A listed model: one without a name is called by its id.
pub open spec fn named_model(m: ModelRawView) -> ModelView {
    ModelView {
        id: m.id,
        name: match m.name {
            Some(n) => n,
            None => m.id,
        },
    }
}

/// The order of models: by id.
pub open spec fn model_order() -> spec_fn(ModelView, ModelView) -> bool {
    |a: ModelView, b: ModelView| !text_before(b.id, a.id)
}

impl Ranked for Model {
    open spec fn order() -> spec_fn(ModelView, ModelView) -> bool {
        model_order()
    }

    fn may_precede(&self, other: &Self) -> (r: bool) {
        !comes_before(other.id.as_str(), self.id.as_str())
    }
}

/// Where the models of a service are listed.
pub fn models_url(base: &str) -> (r: String)
    ensures
        r@ == strip_end(base@, '/') + "/models"@,
{
    let mut r = text_strip_end(base, '/');
    r.push_str("/models");
    r
}

/// The models of a list, in the order of their ids.
pub fn models_from(listed: Vec<ModelRaw>) -> (r: Vec<Model>)
    ensures
        r.deep_view() == sorted_by(
            listed.deep_view().map_values(|m: ModelRawView| named_model(m)),
            model_order(),
        ),
{
    let ghost all = listed.deep_view();
    let mut models: Vec<Model> = Vec::new();
    for m in it: listed
        invariant
            all.len() == it.seq().len(),
            forall|k: int| 0 <= k < all.len() ==> all[k] == (#[trigger] it.seq()[k]).deep_view(),
            models@.len() == it.index(),
            forall|k: int|
                0 <= k < it.index() ==> (#[trigger] models@[k]).deep_view() == named_model(all[k]),
    {
        let name = match m.name {
            Some(n) => n,
            None => m.id.clone(),
        };
        models.push(Model { name: name, id: m.id });
    }
    proof {
        assert(models.deep_view() =~= all.map_values(|m: ModelRawView| named_model(m)));
    }
    stable_sort(models)
}

/// What the request for the list is answered when the service refuses it.
pub fn models_refused(status: &str, body: &str) -> (r: String)
    ensures
        r@ == "models endpoint returned "@ + status@ + ": "@ + body@,
{
    let mut r = "models endpoint returned ".to_owned();
    r.push_str(status);
    r.push_str(": ");
    r.push_str(body);
    r
}

proof fn lemma_model_order()
    ensures
        crate::order::is_order(model_order()),
{
    let le = model_order();
    assert forall|a: ModelView, b: ModelView| #[trigger] le(a, b) || le(b, a) by {
        crate::search::lemma_text_before_total(a.id, b.id);
    }
    assert forall|a: ModelView, b: ModelView, c: ModelView| #[trigger]
        le(a, b) && #[trigger] le(b, c) implies le(a, c) by {
        crate::search::lemma_text_before_total(a.id, b.id);
        crate::search::lemma_text_before_total(b.id, c.id);
        crate::search::lemma_text_before_total(a.id, c.id);
        if text_before(c.id, a.id) {
            if text_before(a.id, b.id) {
                crate::search::lemma_text_before_trans(c.id, a.id, b.id);
            }
        }
    }
}

/// The list is stable: it holds the same models whatever the order in which the
/// service lists them, and always by increasing id.
pub proof fn model_lists_are_ordered(models: Seq<ModelView>)
    ensures
        crate::order::in_order(sorted_by(models, model_order()), model_order()),
        sorted_by(models, model_order()).to_multiset() == models.to_multiset(),
{
    lemma_model_order();
    crate::order::sorting_orders_and_keeps(models, model_order());
}

} // verus!
