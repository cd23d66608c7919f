//! Where the gateway forwards a request.
use vstd::prelude::*;
use vstd::string::*;

verus! {

/// The target a request is forwarded to: `http://`, the service's authority,
/// then the request's path and query, or `/` when it has none.
pub fn forward_target(authority: &str, path_and_query: Option<&str>) -> (r: String)
    ensures
        r@ == "http://"@ + authority@ + match path_and_query {
            Some(p) => p@,
            None => "/"@,
        },
{
    let mut target = String::from_str("http://");
    target.append(authority);
    match path_and_query {
        Some(p) => target.append(p),
        None => target.append("/"),
    }
    target
}

} // verus!
