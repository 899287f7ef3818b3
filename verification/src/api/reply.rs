//! Refusals and other replies that several requests share.
use vstd::prelude::*;

use crate::json::{error_object, error_view, object, put, Json, JsonView};

verus! {

pub const BAD_REQUEST: u16 = 400;

pub const PRECONDITION_FAILED: u16 = 412;

pub const INTERNAL_SERVER_ERROR: u16 = 500;

pub const BAD_GATEWAY: u16 = 502;

/// A refused request: a status and a message.
#[derive(Debug)]
pub struct Refusal {
    pub status: u16,
    pub error: String,
}

/// What a [`Refusal`] stands for.
#[verifier::ext_equal]
pub struct RefusalView {
    pub status: u16,
    pub error: Seq<char>,
}

impl View for Refusal {
    type V = RefusalView;

    open spec fn view(&self) -> RefusalView {
        RefusalView { status: self.status, error: self.error@ }
    }
}

impl Refusal {
    /// A refusal with a status and a message.
    pub fn new(status: u16, error: &str) -> (r: Refusal)
        ensures
            r@ == (RefusalView { status: status, error: error@ }),
    {
        Refusal { status: status, error: error.to_owned() }
    }

    /// A refusal whose message is put together from two parts.
    pub fn because(status: u16, what: &str, why: &str) -> (r: Refusal)
        ensures
            r@ == (RefusalView { status: status, error: what@ + why@ }),
    {
        let mut error = what.to_owned();
        error.push_str(why);
        Refusal { status: status, error: error }
    }

    /// The body of the reply.
    pub fn body(&self) -> (r: Json)
        ensures
            r@ == error_view(self@.error),
    {
        error_object(self.error.as_str())
    }
}

/// The body of a request that went well.
pub open spec fn ok_view() -> JsonView {
    JsonView::Obj(seq![("ok"@, JsonView::Bool(true))])
}

/// The body of a request that went well.
pub fn ok_body() -> (r: Json)
    ensures
        r@ == ok_view(),
{
    let mut fields: Vec<(String, Json)> = Vec::new();
    put(&mut fields, "ok", Json::Bool(true));
    let r = object(fields);
    proof {
        assert(r@->Obj_0 =~= ok_view()->Obj_0);
    }
    r
}

} // verus!
