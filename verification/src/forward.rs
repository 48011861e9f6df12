//! The forwarder's pure part.
//!
//! The outbound request reuses the original method, headers (with the
//! rewritten `Authorization`), and body; only the target changes: the
//! configured redirect base with the original path and query appended. The
//! network call itself is the application's.

use vstd::prelude::*;
use crate::req::Method;

verus! {

/// The method name as it stands on the wire.
pub open spec fn method_chars(m: Method) -> Seq<char> {
    match m {
        Method::Get => "GET"@,
        Method::Post => "POST"@,
        Method::Put => "PUT"@,
    }
}

impl Method {
    pub fn as_str(&self) -> (r: &'static str)
        ensures
            r@ == method_chars(*self),
    {
        match self {
            Method::Get => "GET",
            Method::Post => "POST",
            Method::Put => "PUT",
        }
    }
}

/// The upstream target: the redirect base with the original path and query
/// appended verbatim.
pub fn build_target_url(redirect_url: &str, path_and_query: &str) -> (r: String)
    ensures
        r@ == redirect_url@ + path_and_query@,
{
    let base = String::from_str(redirect_url);
    base.concat(path_and_query)
}

} // verus!
