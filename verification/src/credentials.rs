use vstd::prelude::*;

use crate::strutil::push_char;

verus! {

/// How requests authenticate: a username/password pair, or a bearer token.
/// Used only to derive an authorization header value.
#[derive(Debug, Clone)]
pub enum Credentials {
    Basic(String, String),
    Bearer(String),
}

/// What base64 encoding returns for the given text.
pub uninterp spec fn base64_of(s: Seq<char>) -> Seq<char>;

/// Relies on base64::encode: the standard alphabet with padding, applied to
/// the text's bytes; the result depends on the text alone.
#[verifier::external_body]
fn base64_encode(s: &str) -> (r: String)
    ensures
        r@ == base64_of(s@),
{
    base64::encode(s)
}

/// The authorization header value of the given credentials.
pub open spec fn header_view(c: Credentials) -> Seq<char> {
    match c {
        Credentials::Basic(u, p) => "Basic "@ + base64_of(u@ + seq![':'] + p@),
        Credentials::Bearer(t) => "Bearer "@ + t@,
    }
}

impl Credentials {
    /// The value of the `Authorization` header: `Basic` with the encoded
    /// `user:password` pair, or `Bearer` with the token.
    pub fn as_header(&self) -> (r: String)
        ensures
            r@ == header_view(*self),
    {
        match self {
            Credentials::Basic(username, password) => {
                let mut joined = username.clone();
                push_char(&mut joined, ':');
                joined.append(password.as_str());
                proof {
                    assert(joined@ =~= username@ + seq![':'] + password@);
                }
                let encoded = base64_encode(joined.as_str());
                let mut out = "Basic ".to_owned();
                out.append(encoded.as_str());
                out
            },
            Credentials::Bearer(token) => {
                let mut out = "Bearer ".to_owned();
                out.append(token.as_str());
                out
            },
        }
    }
}

} // verus!
