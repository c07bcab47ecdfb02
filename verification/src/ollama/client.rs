//! What the HTTP client of the model service is built from, and the records
//! it exchanges.
use vstd::prelude::*;
use crate::config::AppSettings;
use crate::ollama::DEFAULT_OLLAMA_URL;
use crate::error::{AppError, AppResult};
use crate::ollama::http::{proxy_readable, build_http, http_builder, proxy_for_all, share_http, with_connect_timeout, with_proxy, with_request_timeout, HttpClient, HttpSetup};
use crate::text::{append_chars, chars_of, copy_string, owned, slice_to_vec, string_of};

verus! {

/// How the client is built: address, proxy and timeouts in seconds.
#[derive(Debug, Clone)]
pub struct OllamaClientConfig {
    pub base_url: String,
    pub proxy: Option<String>,
    pub connect_timeout_secs: u64,
    pub request_timeout_secs: u64,
}

impl Default for OllamaClientConfig {
    /// The default address, no proxy, 30 s to connect, 300 s per request.
    fn default() -> (r: Self)
        ensures
            r.base_url@ == DEFAULT_OLLAMA_URL@,
            r.proxy is None,
            r.connect_timeout_secs == 30,
            r.request_timeout_secs == 300,
    {
        OllamaClientConfig { base_url: owned(DEFAULT_OLLAMA_URL), proxy: None, connect_timeout_secs: 30, request_timeout_secs: 300 }
    }
}

impl OllamaClientConfig {
    /// The client configuration for the settings: the address in effect, the
    /// proxy when one is configured, and the download timeouts.
    pub fn from_settings(s: &AppSettings) -> (r: OllamaClientConfig)
        ensures
            r.base_url@ == (if s.ollama_base_url@.len() == 0 {
                DEFAULT_OLLAMA_URL@
            } else {
                s.ollama_base_url@
            }),
            s.https_proxy@.len() > 0 ==> (r.proxy matches Some(p) && p@ == s.https_proxy@),
            s.https_proxy@.len() == 0 ==> r.proxy is None,
            r.connect_timeout_secs == s.download_connect_timeout_secs,
            r.request_timeout_secs == s.download_request_timeout_secs,
    {
        OllamaClientConfig {
            base_url: owned(s.effective_ollama_url()),
            proxy: if s.proxy_enabled() {
                Some(copy_string(&s.https_proxy))
            } else {
                None
            },
            connect_timeout_secs: s.download_connect_timeout_secs,
            request_timeout_secs: s.download_request_timeout_secs,
        }
    }
}

/// The address without trailing slashes (`str::trim_end_matches('/')`).
pub open spec fn strip_slashes(u: Seq<char>) -> Seq<char>
    decreases u.len(),
{
    if u.len() > 0 && u.last() == '/' {
        strip_slashes(u.drop_last())
    } else {
        u
    }
}

/// The address the client sends requests to (`strip_slashes`).
pub fn client_base_url(base_url: &str) -> (r: String)
    ensures
        r@ == strip_slashes(base_url@),
{
    let c = chars_of(base_url);
    let mut e = c.len();
    assert(c@.take(e as int) =~= c@);
    while e > 0 && c[e - 1] == '/'
        invariant
            e <= c@.len(),
            strip_slashes(c@.take(e as int)) == strip_slashes(c@),
        decreases e,
    {
        proof {
            assert(c@.take(e as int).drop_last() =~= c@.take(e - 1));
        }
        e = e - 1;
    }
    proof {
        assert(c@.take(c@.len() as int) =~= c@);
    }
    let t = slice_to_vec(&c, 0, e);
    assert(t@ =~= c@.take(e as int));
    string_of(&t)
}

/// A proxy address is given, is not empty, and `reqwest` can read it.
pub open spec fn proxy_given(proxy: Option<String>) -> bool {
    proxy matches Some(p) && p@.len() > 0 && proxy_readable(p@)
}

/// The builder with the proxy at `proxy` handed to it, where one is given
/// that is not empty and `reqwest` can read; otherwise unchanged.
fn with_optional_proxy(b: HttpSetup, proxy: &Option<String>) -> (r: HttpSetup)
    ensures
        r.connect_secs() == b.connect_secs(),
        r.request_secs() == b.request_secs(),
        r.proxied() == (b.proxied() || proxy_given(*proxy)),
{
    match proxy {
        Some(p) => {
            if !p.as_str().is_empty() {
                match proxy_for_all(p.as_str()) {
                    Ok(px) => with_proxy(b, px),
                    Err(_) => b,
                }
            } else {
                b
            }
        },
        None => b,
    }
}

/// The client of the model service: its address, without trailing
/// slashes, and the HTTP client that the requests go through.
pub struct OllamaClient {
    base_url: String,
    http: HttpClient,
}

impl OllamaClient {
    /// The address the requests go to.
    pub closed spec fn base(&self) -> Seq<char> {
        self.base_url@
    }

    /// The HTTP client the requests go through.
    pub closed spec fn http_client(&self) -> reqwest::Client {
        self.http.inner()
    }

    /// The connection timeout of the HTTP client, in seconds.
    pub closed spec fn connect_secs(&self) -> Option<u64> {
        self.http.connect_secs()
    }

    /// The total request timeout of the HTTP client, in seconds.
    pub closed spec fn request_secs(&self) -> Option<u64> {
        self.http.request_secs()
    }

    /// Whether the HTTP client goes through a proxy.
    pub closed spec fn proxied(&self) -> bool {
        self.http.proxied()
    }

    /// A client for `base_url` with the default proxy and timeouts
    /// (`OllamaClientConfig::default`: no proxy, 30 s to connect, 300 s per
    /// request).
    pub fn new(base_url: &str) -> (r: AppResult<OllamaClient>)
        ensures
            r matches Ok(c) ==> c.base() == strip_slashes(base_url@) && c.connect_secs() == Some(30u64)
                && c.request_secs() == Some(300u64) && !c.proxied(),
            r matches Err(e) ==> e is Http,
    {
        let d = OllamaClientConfig::default();
        OllamaClient::new_with_config(OllamaClientConfig { base_url: owned(base_url), ..d })
    }

    /// A client built from `cfg`: its timeouts, and its proxy where one is
    /// given that is not empty and can be read (otherwise the connection is
    /// direct). An error of kind `Http` where the HTTP client cannot be set
    /// up on this machine.
    pub fn new_with_config(cfg: OllamaClientConfig) -> (r: AppResult<OllamaClient>)
        ensures
            r matches Ok(c) ==> c.base() == strip_slashes(cfg.base_url@) && c.connect_secs() == Some(
                cfg.connect_timeout_secs,
            ) && c.request_secs() == Some(cfg.request_timeout_secs),
            r matches Ok(c) ==> (c.proxied() <==> proxy_given(cfg.proxy)),
            r matches Err(e) ==> e is Http,
    {
        let b = with_connect_timeout(http_builder(), cfg.connect_timeout_secs);
        let b = with_request_timeout(b, cfg.request_timeout_secs);
        let b = with_optional_proxy(b, &cfg.proxy);
        match build_http(b) {
            Ok(http) => Ok(OllamaClient { base_url: client_base_url(cfg.base_url.as_str()), http }),
            Err(msg) => Err(AppError::Http(msg)),
        }
    }

    /// The address the requests go to.
    pub fn base_url(&self) -> (r: &str)
        ensures
            r@ == self.base(),
    {
        self.base_url.as_str()
    }

    /// The HTTP client the requests go through.
    pub fn http(&self) -> (r: &reqwest::Client)
        ensures
            *r == self.http_client(),
    {
        self.http.client()
    }

    /// The address of the service's endpoint `path` (`/api/tags` and the
    /// like).
    pub fn endpoint(&self, path: &str) -> (r: String)
        ensures
            r@ == self.base() + path@,
    {
        let mut v = chars_of(self.base_url.as_str());
        let p = chars_of(path);
        append_chars(&mut v, &p);
        string_of(&v)
    }

    /// Another handle on the same client.
    pub fn share(&self) -> (r: OllamaClient)
        ensures
            r.base() == self.base(),
            r.connect_secs() == self.connect_secs(),
            r.request_secs() == self.request_secs(),
            r.proxied() == self.proxied(),
    {
        OllamaClient { base_url: copy_string(&self.base_url), http: share_http(&self.http) }
    }
}

/// A generation answer.
#[derive(Debug, Clone)]
pub struct GenerateResponse {
    pub model: String,
    pub response: String,
    pub done: bool,
    pub context: Option<Vec<i32>>,
    pub total_duration: Option<u64>,
    pub load_duration: Option<u64>,
    pub prompt_eval_count: Option<u64>,
    pub eval_count: Option<u64>,
}

/// An embedding request.
#[derive(Debug, Clone)]
pub struct EmbeddingRequest {
    pub model: String,
    pub prompt: String,
}

impl EmbeddingRequest {
    /// The request that embeds `prompt` with `model`.
    pub fn new(model: &str, prompt: &str) -> (r: EmbeddingRequest)
        ensures
            r.model@ == model@,
            r.prompt@ == prompt@,
    {
        EmbeddingRequest { model: owned(model), prompt: owned(prompt) }
    }
}

/// One progress report of a model download.
#[derive(Debug, Clone)]
pub struct PullProgress {
    pub status: String,
    pub digest: Option<String>,
    pub total: Option<u64>,
    pub completed: Option<u64>,
}

/// The state behind the download rate: the bytes completed at the last
/// report and when it came (milliseconds of a monotonic clock).
#[derive(Debug, Clone, Copy)]
pub struct DownloadRateTracker {
    pub last_completed: u64,
    pub last_ts_ms: Option<u64>,
}

impl DownloadRateTracker {
    /// A tracker that has seen no report.
    pub fn new() -> (r: DownloadRateTracker)
        ensures
            r.last_completed == 0,
            r.last_ts_ms is None,
    {
        DownloadRateTracker { last_completed: 0, last_ts_ms: None }
    }

    /// Takes a report of `completed` bytes at `now_ms`: when an earlier
    /// report exists and the count did not go back, the bytes since it and
    /// the milliseconds since it (no less than zero); the report becomes the
    /// last one.
    pub fn advance(&mut self, completed: u64, now_ms: u64) -> (r: Option<(u64, u64)>)
        ensures
            final(self).last_completed == completed,
            final(self).last_ts_ms == Some(now_ms),
            match old(self).last_ts_ms {
                Some(t) => if completed >= old(self).last_completed {
                    r == Some(((completed - old(self).last_completed) as u64, if now_ms >= t { (now_ms - t) as u64 } else { 0u64 }))
                } else {
                    r is None
                },
                None => r is None,
            },
    {
        let r = match self.last_ts_ms {
            Some(t) => {
                if completed >= self.last_completed {
                    let elapsed = if now_ms >= t { now_ms - t } else { 0 };
                    Some((completed - self.last_completed, elapsed))
                } else {
                    None
                }
            },
            None => None,
        };
        self.last_completed = completed;
        self.last_ts_ms = Some(now_ms);
        r
    }
}

/// A request to test a download source.
#[derive(Debug, Clone)]
pub struct TestSourceRequest {
    pub registry: Option<String>,
    pub proxy: Option<String>,
}

/// The outcome of testing a download source.
#[derive(Debug, Clone)]
pub struct TestSourceResult {
    pub ok: bool,
    pub latency_ms: u64,
    pub message: String,
}

/// The address probed when no registry mirror is given.
pub const DEFAULT_REGISTRY_URL: &'static str = "https://registry.ollama.ai";

impl TestSourceRequest {
    /// The address to probe: the registry mirror unless missing or empty.
    pub fn probe_url(&self) -> (r: String)
        ensures
            r@ == (match self.registry {
                Some(u) => if u@.len() > 0 {
                    u@
                } else {
                    DEFAULT_REGISTRY_URL@
                },
                None => DEFAULT_REGISTRY_URL@,
            }),
    {
        match &self.registry {
            Some(u) => {
                if !u.as_str().is_empty() {
                    copy_string(u)
                } else {
                    owned(DEFAULT_REGISTRY_URL)
                }
            },
            None => owned(DEFAULT_REGISTRY_URL),
        }
    }

    /// The HTTP client the probe goes through: a 10 s timeout, and the
    /// proxy to go through (`probe_proxy`) where it can be read. An error of
    /// kind `Other` where the client cannot be set up on this machine.
    pub fn probe_client(&self) -> (r: AppResult<HttpClient>)
        ensures
            r matches Ok(c) ==> c.request_secs() == Some(10u64) && c.connect_secs() is None,
            r matches Ok(c) ==> (c.proxied() <==> proxy_given(self.proxy)),
            r matches Err(e) ==> e is Other,
    {
        let b = with_request_timeout(http_builder(), 10);
        let b = with_optional_proxy(b, &self.proxy);
        match build_http(b) {
            Ok(c) => Ok(c),
            Err(msg) => Err(AppError::Other(msg)),
        }
    }

    /// The proxy to go through: the given one unless missing or empty.
    pub fn probe_proxy(&self) -> (r: Option<String>)
        ensures
            match self.proxy {
                Some(p) => if p@.len() > 0 {
                    r matches Some(x) && x@ == p@
                } else {
                    r is None
                },
                None => r is None,
            },
    {
        match &self.proxy {
            Some(p) => {
                if !p.as_str().is_empty() {
                    Some(copy_string(p))
                } else {
                    None
                }
            },
            None => None,
        }
    }
}

impl TestSourceResult {
    /// The outcome for an answer with HTTP status `code` (shown as
    /// `status_text`): reachable on success or redirection.
    pub fn from_status(code: u16, status_text: &str, latency_ms: u64) -> (r: TestSourceResult)
        ensures
            r.ok == (200 <= code < 400),
            r.latency_ms == latency_ms,
            r.message@ == "HTTP "@ + status_text@,
    {
        let mut m = chars_of("HTTP ");
        let t = chars_of(status_text);
        crate::text::append_chars(&mut m, &t);
        TestSourceResult { ok: 200 <= code && code < 400, latency_ms, message: string_of(&m) }
    }

    /// The outcome when no answer came: unreachable, with the error's message.
    pub fn from_error(error_message: &str, latency_ms: u64) -> (r: TestSourceResult)
        ensures
            !r.ok,
            r.latency_ms == latency_ms,
            r.message@ == error_message@,
    {
        TestSourceResult { ok: false, latency_ms, message: owned(error_message) }
    }
}

} // verus!
