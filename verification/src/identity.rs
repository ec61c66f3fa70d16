//! Resolving DIDs through a remote resolver service: the address that is asked.
use vstd::prelude::*;
use crate::text::{chars_of, string_of, push_str};

verus! {

/// What `url::Url::parse` of `s`, then `query_pairs_mut().append_pair(name,
/// value)`, gives as the URL's text (`as_str`), or the parse error's message.
pub uninterp spec fn url_with_pair(s: Seq<char>, name: Seq<char>, value: Seq<char>) -> Result<Seq<char>, Seq<char>>;

pub open spec fn text_result_view(r: Result<String, String>) -> Result<Seq<char>, Seq<char>> {
    match r {
        Ok(t) => Ok(t@),
        Err(e) => Err(e@),
    }
}

/// `url::Url::parse`, `Url::query_pairs_mut` and
/// `form_urlencoded::Serializer::append_pair`: the URL with `name=value`
/// (form-encoded) added to its query. Stated: the outcome is the named value
/// of the three texts.
#[verifier::external_body]
fn append_query_pair(s: &str, name: &str, value: &str) -> (r: Result<String, String>)
    ensures
        text_result_view(r) == url_with_pair(s@, name@, value@),
{
    match url::Url::parse(s) {
        Ok(mut u) => {
            u.query_pairs_mut().append_pair(name, value);
            Ok(u.as_str().to_string())
        },
        Err(e) => Err(e.to_string()),
    }
}

/// The address at which the resolver service at `base` resolves `did`, or why
/// there is none.
pub open spec fn resolve_address(base: Seq<char>, did: Seq<char>) -> Result<Seq<char>, Seq<char>> {
    match url_with_pair(base + "/api/did/resolve"@, "did"@, did) {
        Ok(u) => Ok(u),
        Err(m) => Err("Invalid resolver base URL: "@ + m),
    }
}

/// A client of a remote DID resolver service.
pub struct RemoteDidResolver {
    base_url: String,
}

impl RemoteDidResolver {
    pub closed spec fn base(&self) -> Seq<char> {
        self.base_url@
    }

    /// A client of the resolver service at `base_url`.
    pub fn new(base_url: &str) -> (r: Self)
        ensures
            r.base() == base_url@,
    {
        RemoteDidResolver { base_url: base_url.to_owned() }
    }

    /// The address that resolves `did`: the service's `/api/did/resolve` with
    /// `did` in its query; an error when the service's address is not a URL.
    pub fn resolve_url(&self, did: &str) -> (r: Result<String, String>)
        ensures
            text_result_view(r) == resolve_address(self.base(), did@),
    {
        proof {
            reveal_strlit("/api/did/resolve");
            reveal_strlit("did");
            reveal_strlit("Invalid resolver base URL: ");
        }
        let mut endpoint = chars_of(self.base_url.as_str());
        push_str(&mut endpoint, "/api/did/resolve");
        let endpoint = string_of(endpoint.as_slice());
        match append_query_pair(endpoint.as_str(), "did", did) {
            Ok(u) => Ok(u),
            Err(m) => {
                let mut msg: Vec<char> = Vec::new();
                push_str(&mut msg, "Invalid resolver base URL: ");
                push_str(&mut msg, m.as_str());
                Err(string_of(msg.as_slice()))
            },
        }
    }
}

} // verus!
