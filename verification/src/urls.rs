//! Parsed URLs. Parsing and joining are done by the `url` crate; the library
//! keeps the parts that its rules read as plain values.

use vstd::prelude::*;

use crate::text::str_eq;

verus! {

#[verifier::external_type_specification]
#[verifier::external_body]
pub struct ExUrl(url::Url);

/// The parts of a parsed URL that the library reads.
pub struct UrlView {
    /// The whole serialization.
    pub href: Seq<char>,
    /// Lower-cased scheme, without the `:`.
    pub scheme: Seq<char>,
    /// Host as serialized, when the URL has one.
    pub host: Option<Seq<char>>,
    /// Explicit port, or the scheme's default port when the scheme has one.
    pub port: Option<u16>,
    /// Path as serialized.
    pub path: Seq<char>,
    /// Query parsed as `application/x-www-form-urlencoded`, percent-decoded, in order.
    pub query: Seq<(Seq<char>, Seq<char>)>,
    /// ASCII serialization of the URL's origin.
    pub origin: Seq<char>,
}

/// What `url::Url::parse` makes of `input`, when it accepts it.
pub uninterp spec fn url_parse(input: Seq<char>) -> Option<UrlView>;

/// What `url::Url::join` makes of `input` against the URL serialized as
/// `base`, when it accepts it.
pub uninterp spec fn url_join(base: Seq<char>, input: Seq<char>) -> Option<UrlView>;

/// An absolute URL, parsed.
pub struct ParsedUrl {
    url: url::Url,
    href: String,
    scheme: String,
    host: Option<String>,
    port: Option<u16>,
    path: String,
    query: Vec<(String, String)>,
    origin: String,
}

impl View for ParsedUrl {
    type V = UrlView;

    closed spec fn view(&self) -> UrlView {
        UrlView {
            href: self.href@,
            scheme: self.scheme@,
            host: match self.host {
                Some(h) => Some(h@),
                None => None,
            },
            port: self.port,
            path: self.path@,
            query: self.query@.map_values(|p: (String, String)| (p.0@, p.1@)),
            origin: self.origin@,
        }
    }
}

/// Parses an absolute URL with `url::Url::parse`. The result is `None` when
/// that function returns an error; otherwise it holds the parts `url_parse`
/// names (serialization, scheme, host, port or known default, path, decoded
/// query pairs, origin serialization), taken from the parsed `Url` by its
/// accessors.
#[verifier::external_body]
pub fn parse_url(input: &str) -> (r: Option<ParsedUrl>)
    ensures
        r is Some <==> url_parse(input@) is Some,
        r matches Some(u) ==> u@ == url_parse(input@)->0,
{
    let u = url::Url::parse(input).ok()?;
    Some(ParsedUrl {
        href: u.as_str().to_string(),
        scheme: u.scheme().to_string(),
        host: u.host_str().map(|h| h.to_string()),
        port: u.port_or_known_default(),
        path: u.path().to_string(),
        query: u.query_pairs().map(|(k, v)| (k.into_owned(), v.into_owned())).collect(),
        origin: u.origin().ascii_serialization(),
        url: u,
    })
}

/// Resolves `input` against `base` with `url::Url::join`. The result is
/// `None` when that function returns an error; otherwise it holds the parts
/// `url_join` names for the serialization of `base` and `input` (a `Url`
/// is determined by its serialization).
#[verifier::external_body]
pub fn join_url(base: &ParsedUrl, input: &str) -> (r: Option<ParsedUrl>)
    ensures
        r is Some <==> url_join(base@.href, input@) is Some,
        r matches Some(u) ==> u@ == url_join(base@.href, input@)->0,
{
    let u = base.url.join(input).ok()?;
    Some(ParsedUrl {
        href: u.as_str().to_string(),
        scheme: u.scheme().to_string(),
        host: u.host_str().map(|h| h.to_string()),
        port: u.port_or_known_default(),
        path: u.path().to_string(),
        query: u.query_pairs().map(|(k, v)| (k.into_owned(), v.into_owned())).collect(),
        origin: u.origin().ascii_serialization(),
        url: u,
    })
}

impl ParsedUrl {
    /// The whole serialization.
    pub fn href(&self) -> (r: &str)
        ensures
            r@ == self@.href,
    {
        self.href.as_str()
    }

    /// The scheme.
    pub fn scheme(&self) -> (r: &str)
        ensures
            r@ == self@.scheme,
    {
        self.scheme.as_str()
    }

    /// The host, when there is one.
    pub fn host(&self) -> (r: Option<&str>)
        ensures
            r is Some <==> self@.host is Some,
            r matches Some(h) ==> h@ == self@.host->0,
    {
        match &self.host {
            Some(h) => Some(h.as_str()),
            None => None,
        }
    }

    /// The port, or the scheme's default port.
    pub fn port(&self) -> (r: Option<u16>)
        ensures
            r == self@.port,
    {
        self.port
    }

    /// The path.
    pub fn path(&self) -> (r: &str)
        ensures
            r@ == self@.path,
    {
        self.path.as_str()
    }

    /// The number of query pairs.
    pub fn query_len(&self) -> (r: usize)
        ensures
            r == self@.query.len(),
    {
        self.query.len()
    }

    /// The query pair at position `i`.
    pub fn query_pair(&self, i: usize) -> (r: (&str, &str))
        requires
            i < self@.query.len(),
        ensures
            r.0@ == self@.query[i as int].0,
            r.1@ == self@.query[i as int].1,
    {
        let p = &self.query[i];
        (p.0.as_str(), p.1.as_str())
    }

    /// The ASCII serialization of the origin.
    pub fn origin(&self) -> (r: &str)
        ensures
            r@ == self@.origin,
    {
        self.origin.as_str()
    }
}

/// Whether a scheme is `http` or `https`.
pub open spec fn is_http_scheme(scheme: Seq<char>) -> bool {
    scheme == "http"@ || scheme == "https"@
}

/// Whether a parsed scheme is `http` or `https`.
pub fn http_scheme(scheme: &str) -> (r: bool)
    ensures
        r == is_http_scheme(scheme@),
{
    str_eq(scheme, "http") || str_eq(scheme, "https")
}

/// Why a string is not an acceptable bookmark URL.
#[derive(Debug, Clone, Copy, PartialEq, Eq)]
pub enum UrlError {
    /// `url::Url::parse` rejects it.
    Invalid,
    /// It parses, but its scheme is neither `http` nor `https`.
    NotHttp,
}

/// Validates that a string is an HTTP(S) URL and returns it parsed.
pub fn validate_http_url(url: &str) -> (r: Result<ParsedUrl, UrlError>)
    ensures
        url_parse(url@) is None ==> r == Err::<ParsedUrl, UrlError>(UrlError::Invalid),
        url_parse(url@) matches Some(v) ==> (if is_http_scheme(v.scheme) {
            r matches Ok(u) && u@ == v
        } else {
            r == Err::<ParsedUrl, UrlError>(UrlError::NotHttp)
        }),
{
    match parse_url(url) {
        None => Err(UrlError::Invalid),
        Some(u) => {
            if http_scheme(u.scheme()) {
                Ok(u)
            } else {
                Err(UrlError::NotHttp)
            }
        },
    }
}

} // verus!
