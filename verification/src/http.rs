//! What the collectors put on an HTTP request.
use vstd::prelude::*;

use base64::Engine;

use crate::text::concat;

verus! {

/// The standard (padded, `+/` alphabet) base64 encoding of the UTF-8
/// bytes of `s`.
pub uninterp spec fn base64_of_text(s: Seq<char>) -> Seq<char>;

/// Calls `base64::engine::general_purpose::STANDARD.encode` on the UTF-8
/// bytes of `s`. The contract names the result: it is a function of the
/// text alone. The length bound keeps the encoder's buffer-size
/// computation, which panics on overflow, in range.
#[verifier::external_body]
fn encode_standard(s: &str) -> (r: String)
    requires
        s@.len() <= usize::MAX / 8,
    ensures
        r@ == base64_of_text(s@),
{
    base64::engine::general_purpose::STANDARD.encode(s)
}

/// The `Authorization` value for HTTP basic auth with `user:token`, as the
/// Atlassian Cloud APIs take it.
pub fn basic_auth_header(user: &str, token: &str) -> (r: String)
    requires
        user@.len() + token@.len() + 1 <= usize::MAX / 8,
    ensures
        r@ == "Basic "@ + base64_of_text(user@ + ":"@ + token@),
{
    let a = concat(user, ":");
    let b = concat(a.as_str(), token);
    proof {
        reveal_strlit(":");
    }
    let e = encode_standard(b.as_str());
    concat("Basic ", e.as_str())
}

} // verus!
