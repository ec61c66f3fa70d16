//! Which fetches an identity may make: a `file://` URL needs the capability
//! to read the workspace, any other URL the capability to use the network.
use vstd::prelude::*;
use crate::text::{chars_of, string_of, slice_of, push_str, occurs_at, starts_with_str};
use crate::fetch::FetchError;

verus! {

/// A capability an identity may hold.
#[derive(Debug, PartialEq, Eq)]
pub enum Capability {
    /// May reach the network.
    NetworkAccess,
    /// May read files of the workspace.
    ReadWorkspace,
    /// Any other capability, by name.
    Other(String),
}

/// Who a fetch is made for: a DID and the capabilities it holds.
#[derive(Debug, PartialEq, Eq)]
pub struct Identity {
    pub did: String,
    pub default_capabilities: Vec<Capability>,
}

/// Where a permitted fetch goes: a file path, or a URL on the network.
#[derive(Debug, PartialEq, Eq)]
pub enum FetchRoute {
    File(String),
    Network(String),
}

/// Whether the list holds the capability to read the workspace (`true`) or
/// the one to use the network (`false`).
pub open spec fn holds(caps: Seq<Capability>, workspace: bool) -> bool {
    exists|i: int| 0 <= i < caps.len() && #[trigger] is_capability(caps[i], workspace)
}

/// Whether `c` is the workspace-read (`true`) or network-access (`false`) capability.
pub open spec fn is_capability(c: Capability, workspace: bool) -> bool {
    if workspace {
        c is ReadWorkspace
    } else {
        c is NetworkAccess
    }
}

/// Where a fetch of `url` for identity `did` with capabilities `caps` goes:
/// `(true, path)` for a file, `(false, url)` for the network; or the message
/// of the refusal.
pub open spec fn fetch_route(url: Seq<char>, did: Seq<char>, caps: Seq<Capability>) -> Result<(bool, Seq<char>), Seq<char>> {
    if occurs_at(url, "file://"@, 0) {
        if holds(caps, true) {
            Ok((true, url.skip(7)))
        } else {
            Err("Identity "@ + did + " lacks workspace.read capability"@)
        }
    } else if holds(caps, false) {
        Ok((false, url))
    } else {
        Err("Identity "@ + did + " lacks network.access capability"@)
    }
}

pub open spec fn route_view(r: Result<FetchRoute, FetchError>) -> Option<Result<(bool, Seq<char>), Seq<char>>> {
    match r {
        Ok(FetchRoute::File(p)) => Some(Ok((true, p@))),
        Ok(FetchRoute::Network(u)) => Some(Ok((false, u@))),
        Err(FetchError::InvalidUrl(m)) => Some(Err(m@)),
        _ => None,
    }
}

/// Whether the identity holds the workspace-read (`true`) or the
/// network-access (`false`) capability.
fn has_capability(identity: &Identity, workspace: bool) -> (r: bool)
    ensures
        r == holds(identity.default_capabilities@, workspace),
{
    let mut i: usize = 0;
    while i < identity.default_capabilities.len()
        invariant
            i <= identity.default_capabilities.len(),
            forall|k: int| 0 <= k < i ==> !is_capability(#[trigger] identity.default_capabilities@[k], workspace),
        decreases identity.default_capabilities.len() - i,
    {
        let found = match &identity.default_capabilities[i] {
            Capability::ReadWorkspace => workspace,
            Capability::NetworkAccess => !workspace,
            Capability::Other(_) => false,
        };
        if found {
            assert(is_capability(identity.default_capabilities@[i as int], workspace));
            return true;
        }
        i = i + 1;
    }
    false
}

/// The refusal for an identity that lacks the capability `name`.
fn lacks(did: &str, name: &str) -> (r: FetchError)
    ensures
        r matches FetchError::InvalidUrl(m) && m@ == "Identity "@ + did@ + " lacks "@ + name@ + " capability"@,
{
    let mut out: Vec<char> = Vec::new();
    push_str(&mut out, "Identity ");
    push_str(&mut out, did);
    push_str(&mut out, " lacks ");
    push_str(&mut out, name);
    push_str(&mut out, " capability");
    FetchError::InvalidUrl(string_of(out.as_slice()))
}

/// Where a fetch of `url` for `identity` goes, or why it is refused: a
/// `file://` URL is read from its path by an identity that may read the
/// workspace; any other URL is fetched by one that may use the network.
pub fn route_fetch(url: &str, identity: &Identity) -> (r: Result<FetchRoute, FetchError>)
    ensures
        route_view(r) == Some(fetch_route(url@, identity.did@, identity.default_capabilities@)),
{
    proof {
        reveal_strlit("file://");
        reveal_strlit("workspace.read");
        reveal_strlit("network.access");
        reveal_strlit("Identity ");
        reveal_strlit(" lacks ");
        reveal_strlit(" capability");
        reveal_strlit(" lacks workspace.read capability");
        reveal_strlit(" lacks network.access capability");
    }
    let u = chars_of(url);
    if starts_with_str(u.as_slice(), "file://") {
        if has_capability(identity, true) {
            let path = slice_of(u.as_slice(), 7, u.len());
            assert(path@ =~= url@.skip(7));
            Ok(FetchRoute::File(string_of(path.as_slice())))
        } else {
            let e = lacks(identity.did.as_str(), "workspace.read");
            assert(" lacks "@ + "workspace.read"@ + " capability"@ =~= " lacks workspace.read capability"@);
            assert("Identity "@ + identity.did@ + " lacks "@ + "workspace.read"@ + " capability"@ =~= "Identity "@
                + identity.did@ + " lacks workspace.read capability"@);
            Err(e)
        }
    } else if has_capability(identity, false) {
        Ok(FetchRoute::Network(url.to_owned()))
    } else {
        let e = lacks(identity.did.as_str(), "network.access");
        assert("Identity "@ + identity.did@ + " lacks "@ + "network.access"@ + " capability"@ =~= "Identity "@
            + identity.did@ + " lacks network.access capability"@);
        Err(e)
    }
}

} // verus!
