//! Who may use the server.

use crate::text::{begins_with, same_text, strip_prefix};
use vstd::prelude::*;

verus! {

/// A request with this authorization header is allowed: the header is the
/// expected key as a bearer token, the scheme spelled in either way. Without an
/// expected key every request is allowed.
pub open spec fn allowed(expected: Option<Seq<char>>, header: Option<Seq<char>>) -> bool {
    match expected {
        None => true,
        Some(key) => match header {
            Some(h) => h == "Bearer "@ + key || h == "bearer "@ + key,
            None => false,
        },
    }
}

/// A text is a prefix and the rest where it begins with the prefix.
proof fn lemma_prefixed(h: Seq<char>, prefix: Seq<char>, key: Seq<char>)
    ensures
        (h == prefix + key) == (begins_with(h, prefix) && h.skip(prefix.len() as int) == key),
{
    let n = prefix.len() as int;
    if h == prefix + key {
        assert(h.take(n) =~= prefix);
        assert(h.skip(n) =~= key);
    }
    if begins_with(h, prefix) && h.skip(n) == key {
        assert(h =~= h.take(n) + h.skip(n));
    }
}

/// The text of an optional string.
pub open spec fn text_of(s: Option<&str>) -> Option<Seq<char>> {
    match s {
        Some(x) => Some(x@),
        None => None,
    }
}

/// Whether a request with this authorization header is allowed.
pub fn is_authorized(expected: Option<&str>, header: Option<&str>) -> (r: bool)
    ensures
        r == allowed(text_of(expected), text_of(header)),
{
    match expected {
        None => true,
        Some(key) => match header {
            None => false,
            Some(h) => {
                proof {
                    lemma_prefixed(h@, "Bearer "@, key@);
                    lemma_prefixed(h@, "bearer "@, key@);
                }
                if let Some(rest) = strip_prefix(h, "Bearer ") {
                    if same_text(rest, key) {
                        return true;
                    }
                }
                match strip_prefix(h, "bearer ") {
                    Some(rest) => same_text(rest, key),
                    None => false,
                }
            },
        },
    }
}

/// The API is open to the network: no key, and not bound to this machine.
pub open spec fn is_open(has_key: bool, host: Seq<char>) -> bool {
    !has_key && host != "127.0.0.1"@ && host != "localhost"@
}

/// Whether the API is open to the network.
pub fn open_on_network(has_key: bool, host: &str) -> (r: bool)
    ensures
        r == is_open(has_key, host@),
{
    !has_key && !same_text(host, "127.0.0.1") && !same_text(host, "localhost")
}

/// The key is accepted behind either spelling of the scheme, and never without
/// one.
pub proof fn law_scheme_is_required(key: Seq<char>)
    ensures
        allowed(Some(key), Some("Bearer "@ + key)),
        allowed(Some(key), Some("bearer "@ + key)),
        !allowed(Some(key), Some(key)),
{
    reveal_strlit("Bearer ");
    reveal_strlit("bearer ");
}

} // verus!
