//! The endpoint resolver: a connection string plus scheme determines which
//! backend driver a datastore instantiates.
//!
//! A path-like scheme (`mem`) selects the embedded in-memory engine; the
//! `journal` scheme selects the log-structured engine. The URL itself is
//! parsed and normalized by the `url` crate behind trusted declarations;
//! the scheme-to-driver decision is the library's own verified logic.

use vstd::prelude::*;
use vstd::string::{StrSliceExecFns, StringExecFns};

use crate::backend::BackendKind;
use crate::ds::Config;
use crate::err::Error;

verus! {

#[verifier::external_type_specification]
#[verifier::external_body]
pub struct ExUrl(url::Url);

#[verifier::external_type_specification]
#[verifier::external_body]
pub struct ExParseError(url::ParseError);

/// Relies on url::Url::parse: parses an absolute URL, or reports why the
/// input is not one. Nothing further is assumed of the parse.
pub assume_specification[ url::Url::parse ](input: &str) -> (r: Result<url::Url, url::ParseError>)
;

/// Relies on url::Url::scheme: returns the URL's scheme, lower-cased, as
/// an ASCII string without the `:` delimiter.
pub assume_specification[ url::Url::scheme ](u: &url::Url) -> (r: &str)
    ensures
        r.is_ascii(),
;

/// A server address used to connect to a datastore: the parsed URL, the
/// raw address it was built from, and the configuration it carries.
pub struct Endpoint {
    pub endpoint: url::Url,
    pub address: String,
    pub config: Config,
}

/// A trait for converting inputs to a server address object.
pub trait IntoEndpoint<Scheme> {
    /// Converts an input into a server address object.
    fn into_endpoint(self) -> Result<Endpoint, Error>;
}

/// Scheme marker for the embedded in-memory engine.
pub struct Mem;

/// Scheme marker for the log-structured journal engine.
pub struct Journal;

/// Build the connection URL text for a path-based scheme.
pub fn make_url(scheme: &str, path: &str) -> (r: String)
    ensures
        r@ == scheme@ + "://"@ + path@,
{
    let mut s = scheme.to_owned();
    s.append("://");
    s.append(path);
    s
}

impl Default for Config {
    /// An empty configuration: the node identity still has to be supplied
    /// before `Datastore::open` accepts it.
    fn default() -> (r: Config)
        ensures
            r.node_id@ == Seq::<char>::empty(),
    {
        Config { node_id: String::new() }
    }
}

fn endpoint_of(scheme: &str, path: &str) -> (r: Result<Endpoint, Error>)
    ensures
        r matches Err(e) ==> e == Error::ConnectionError,
        r matches Ok(ep) ==> ep.address@ == path@ && ep.config.node_id@ == Seq::<char>::empty(),
{
    let text = make_url(scheme, path);
    match url::Url::parse(text.as_str()) {
        Ok(u) => Ok(Endpoint { endpoint: u, address: path.to_owned(), config: Config::default() }),
        Err(_) => Err(Error::ConnectionError),
    }
}

impl IntoEndpoint<Mem> for &str {
    fn into_endpoint(self) -> Result<Endpoint, Error> {
        endpoint_of("mem", self)
    }
}

impl IntoEndpoint<Journal> for &str {
    fn into_endpoint(self) -> Result<Endpoint, Error> {
        endpoint_of("journal", self)
    }
}

/// Decide whether two texts are the same characters.
pub fn str_eq_text(a: &str, b: &str) -> (r: bool)
    ensures
        r == (a@ == b@),
{
    let na = a.unicode_len();
    let nb = b.unicode_len();
    if na != nb {
        return false;
    }
    let mut i: usize = 0;
    while i < na
        invariant
            i <= na,
            na == a@.len(),
            na == b@.len(),
            forall|j: int| 0 <= j < i ==> a@[j] == b@[j],
        decreases na - i,
    {
        if a.get_char(i) != b.get_char(i) {
            return false;
        }
        i = i + 1;
    }
    proof {
        assert(a@ =~= b@);
    }
    true
}

/// Which backend driver a scheme selects, if any.
pub open spec fn spec_scheme_kind(s: Seq<char>) -> Option<BackendKind> {
    if s == "mem"@ {
        Some(BackendKind::Memory)
    } else if s == "journal"@ {
        Some(BackendKind::Journal)
    } else {
        None
    }
}

/// Exec form of [`spec_scheme_kind`]: the verified scheme-to-driver
/// decision.
pub fn scheme_kind(scheme: &str) -> (r: Option<BackendKind>)
    ensures
        r == spec_scheme_kind(scheme@),
{
    if str_eq_text(scheme, "mem") {
        Some(BackendKind::Memory)
    } else if str_eq_text(scheme, "journal") {
        Some(BackendKind::Journal)
    } else {
        None
    }
}

/// Select the backend driver an endpoint names. A scheme naming no
/// driver available here is surfaced as `UnsupportedFeature`.
pub fn resolve_kind(ep: &Endpoint) -> (r: Result<BackendKind, Error>)
    ensures
        r matches Err(e) ==> e == Error::UnsupportedFeature,
{
    match scheme_kind(ep.endpoint.scheme()) {
        Some(k) => Ok(k),
        None => Err(Error::UnsupportedFeature),
    }
}

} // verus!
