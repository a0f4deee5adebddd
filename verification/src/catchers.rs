use vstd::prelude::*;
use crate::text::push_text;

verus! {

/// The answer to a request that failed with a status that has no catcher of its own.
pub fn default_catcher(uri: &str) -> (r: String)
    ensures
        r@ == "Something sure happened when you went to '"@ + uri@ + "'. Try something else?"@,
{
    let mut r = "Something sure happened when you went to '".to_owned();
    push_text(&mut r, uri);
    push_text(&mut r, "'. Try something else?");
    r
}

/// The answer to a bad request (400).
pub fn bad_request(uri: &str) -> (r: String)
    ensures
        r@ == "Bad request to '"@ + uri@ + ", try again later or change data'"@,
{
    let mut r = "Bad request to '".to_owned();
    push_text(&mut r, uri);
    push_text(&mut r, ", try again later or change data'");
    r
}

/// The answer to a request for something that does not exist (404).
pub fn not_found(uri: &str) -> (r: String)
    ensures
        r@ == "I couldn't find '"@ + uri@ + "'. Try something else?"@,
{
    let mut r = "I couldn't find '".to_owned();
    push_text(&mut r, uri);
    push_text(&mut r, "'. Try something else?");
    r
}

/// The answer to a request whose body is too large (413).
pub fn content_too_large() -> (r: String)
    ensures
        r@ == "hehe"@,
{
    "hehe".to_owned()
}

/// The answer to a request that made the server a teapot (418).
pub fn im_a_teapot() -> (r: String)
    ensures
        r@ == "I don't know how you did this."@,
{
    "I don't know how you did this.".to_owned()
}

} // verus!
