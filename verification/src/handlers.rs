//! The handlers of the example server.
use vstd::prelude::*;
use vstd::string::*;
use crate::http::request::Request;
use crate::http::response::{json, starting_header, Response};
use crate::http::text::trim;

verus! {

/// `{ "user": "<id>" }` as JSON, where `<id>` is the first captured value
/// (empty when there is none).
pub fn handler_get_user(_request: &Request, params: &[&str]) -> (r: Response)
    ensures
        r.code == 200,
        r.body matches Some(b) && b@ == trim(
            "{ \"user\": \""@ + (if params@.len() > 0 {
                params@[0]@
            } else {
                Seq::empty()
            }) + "\" }"@,
        ),
        starting_header(r.header, seq!["application/json"@, "charset=utf-8"@]),
{
    let id: &str = if params.len() > 0 {
        params[0]
    } else {
        proof {
            reveal_strlit("");
        }
        ""
    };
    let mut body = String::new();
    body.append("{ \"user\": \"");
    body.append(id);
    body.append("\" }");
    json(200, body.as_str())
}

/// `pong` as text.
pub fn handler_health(_request: &Request, _params: &[&str]) -> (r: Response)
    ensures
        r.code == 200,
        r.body matches Some(b) && b@ == trim("pong"@),
        starting_header(r.header, seq!["text/html"@]),
{
    crate::http::response::text(200, "pong")
}

/// `{ "message": "hello" }` as JSON.
pub fn handler_hello(_request: &Request, _params: &[&str]) -> (r: Response)
    ensures
        r.code == 200,
        r.body matches Some(b) && b@ == trim("{ \"message\": \"hello\" }"@),
        starting_header(r.header, seq!["application/json"@, "charset=utf-8"@]),
{
    json(200, "{ \"message\": \"hello\" }")
}

} // verus!
