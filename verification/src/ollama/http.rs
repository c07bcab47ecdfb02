//! The HTTP client of the `reqwest` crate, with what it was built from:
//! its timeouts and whether a proxy was handed to it. Only the functions of
//! this module, each a call into `reqwest`, make or change these values.
use vstd::prelude::*;

verus! {

/// The HTTP client of the `reqwest` crate.
#[verifier::external_type_specification]
#[verifier::external_body]
pub struct ExHttpClient(reqwest::Client);

/// The builder of a `reqwest` client.
#[verifier::external_type_specification]
#[verifier::external_body]
pub struct ExHttpClientBuilder(reqwest::ClientBuilder);

/// A proxy setting of `reqwest`.
#[verifier::external_type_specification]
#[verifier::external_body]
pub struct ExHttpProxy(reqwest::Proxy);

/// An error of `reqwest`.
#[verifier::external_type_specification]
#[verifier::external_body]
pub struct ExHttpError(reqwest::Error);

/// A `reqwest` client builder, with the connection timeout, the request
/// timeout (in seconds) and whether a proxy was handed to it.
pub struct HttpSetup {
    builder: reqwest::ClientBuilder,
    connect: Ghost<Option<u64>>,
    request: Ghost<Option<u64>>,
    proxy: Ghost<bool>,
}

impl HttpSetup {
    /// The connection timeout handed to the builder, if any.
    pub closed spec fn connect_secs(&self) -> Option<u64> {
        self.connect@
    }

    /// The total request timeout handed to the builder, if any.
    pub closed spec fn request_secs(&self) -> Option<u64> {
        self.request@
    }

    /// Whether a proxy was handed to the builder.
    pub closed spec fn proxied(&self) -> bool {
        self.proxy@
    }
}

/// A `reqwest` client, with the settings of the builder it came from.
pub struct HttpClient {
    client: reqwest::Client,
    connect: Ghost<Option<u64>>,
    request: Ghost<Option<u64>>,
    proxy: Ghost<bool>,
}

impl HttpClient {
    /// The connection timeout the client was built with, if any.
    pub closed spec fn connect_secs(&self) -> Option<u64> {
        self.connect@
    }

    /// The total request timeout the client was built with, if any.
    pub closed spec fn request_secs(&self) -> Option<u64> {
        self.request@
    }

    /// Whether the client was built with a proxy.
    pub closed spec fn proxied(&self) -> bool {
        self.proxy@
    }

    /// The `reqwest` client itself.
    pub closed spec fn inner(&self) -> reqwest::Client {
        self.client
    }

    /// The `reqwest` client, to send requests with.
    pub fn client(&self) -> (r: &reqwest::Client)
        ensures
            *r == self.inner(),
    {
        &self.client
    }
}

/// `reqwest::Client::builder`: a builder with the crate's defaults, no
/// timeout and no proxy handed to it.
#[verifier::external_body]
pub(crate) fn http_builder() -> (r: HttpSetup)
    ensures
        r.connect_secs() is None,
        r.request_secs() is None,
        !r.proxied(),
{
    HttpSetup { builder: reqwest::Client::builder(), connect: Ghost(None), request: Ghost(None), proxy: Ghost(false) }
}

/// `reqwest::ClientBuilder::connect_timeout` with `secs` seconds: the
/// builder, now with that connection timeout, the rest unchanged.
#[verifier::external_body]
pub(crate) fn with_connect_timeout(s: HttpSetup, secs: u64) -> (r: HttpSetup)
    ensures
        r.connect_secs() == Some(secs),
        r.request_secs() == s.request_secs(),
        r.proxied() == s.proxied(),
{
    let b = s.builder.connect_timeout(std::time::Duration::from_secs(secs));
    HttpSetup { builder: b, connect: Ghost(Some(secs)), request: s.request, proxy: s.proxy }
}

/// `reqwest::ClientBuilder::timeout` with `secs` seconds: the builder, now
/// with that total request timeout, the rest unchanged.
#[verifier::external_body]
pub(crate) fn with_request_timeout(s: HttpSetup, secs: u64) -> (r: HttpSetup)
    ensures
        r.request_secs() == Some(secs),
        r.connect_secs() == s.connect_secs(),
        r.proxied() == s.proxied(),
{
    let b = s.builder.timeout(std::time::Duration::from_secs(secs));
    HttpSetup { builder: b, connect: s.connect, request: Ghost(Some(secs)), proxy: s.proxy }
}

/// Whether `reqwest::Proxy::all` reads `url` as a proxy address (it parses
/// the address; the outcome depends on the text alone).
pub uninterp spec fn proxy_readable(url: Seq<char>) -> bool;

/// `reqwest::Proxy::all`: a proxy for all traffic when it can read the
/// address (`proxy_readable`), otherwise its error.
#[verifier::external_body]
pub(crate) fn proxy_for_all(url: &str) -> (r: Result<reqwest::Proxy, reqwest::Error>)
    ensures
        r is Ok <==> proxy_readable(url@),
{
    reqwest::Proxy::all(url)
}

/// `reqwest::ClientBuilder::proxy`: the builder, now sending its traffic
/// through `p`, the timeouts unchanged.
#[verifier::external_body]
pub(crate) fn with_proxy(s: HttpSetup, p: reqwest::Proxy) -> (r: HttpSetup)
    ensures
        r.proxied(),
        r.connect_secs() == s.connect_secs(),
        r.request_secs() == s.request_secs(),
{
    HttpSetup { builder: s.builder.proxy(p), connect: s.connect, request: s.request, proxy: Ghost(true) }
}

/// `reqwest::ClientBuilder::build`: the client, with the builder's
/// settings, or the error's text where the TLS backend or the resolver
/// cannot be set up. Which of the two comes back is not stated: it depends
/// on the machine.
#[verifier::external_body]
pub(crate) fn build_http(s: HttpSetup) -> (r: Result<HttpClient, String>)
    ensures
        r matches Ok(c) ==> c.connect_secs() == s.connect_secs() && c.request_secs() == s.request_secs() && c.proxied()
            == s.proxied(),
{
    match s.builder.build() {
        Ok(c) => Ok(HttpClient { client: c, connect: s.connect, request: s.request, proxy: s.proxy }),
        Err(e) => Err(e.to_string()),
    }
}

/// `Clone::clone` of a `reqwest` client: a handle on the same connection
/// pool and configuration.
#[verifier::external_body]
pub(crate) fn share_http(c: &HttpClient) -> (r: HttpClient)
    ensures
        r.connect_secs() == c.connect_secs(),
        r.request_secs() == c.request_secs(),
        r.proxied() == c.proxied(),
{
    HttpClient { client: c.client.clone(), connect: Ghost(c.connect@), request: Ghost(c.request@), proxy: Ghost(c.proxy@) }
}

} // verus!
