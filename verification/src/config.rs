//! Where the application keeps its files, and its settings with the way they
//! are stored as key/value pairs.
use vstd::prelude::*;
use crate::numfmt::{decimal, lemma_parse_decimal, parse_unsigned, parse_unsigned_chars, u64_to_decimal};
use crate::ollama::{DEFAULT_CHAT_MODEL, DEFAULT_OLLAMA_URL};
use crate::text::{chars_of, copy_string, owned, str_eq, string_of};
use crate::chunking::recursive::strings_view;

verus! {

/// The application's directories, below a root directory given as path
/// components (the documents folder's `SimpleThinkTank` directory).
pub struct AppPaths {
    pub root: Vec<String>,
}

impl AppPaths {
    fn below(&self, parts: &[&str]) -> (r: Vec<String>)
        ensures
            strings_view(r@) == strings_view(self.root@) + parts@.map_values(|p: &str| p@),
    {
        let mut out: Vec<String> = Vec::new();
        let mut k: usize = 0;
        while k < self.root.len()
            invariant
                k <= self.root@.len(),
                strings_view(out@) == strings_view(self.root@).take(k as int),
            decreases self.root.len() - k,
        {
            let x = copy_string(&self.root[k]);
            let ghost before = out@;
            out.push(x);
            proof {
                assert(strings_view(out@) =~= strings_view(before).push(x@));
                assert(strings_view(self.root@).take(k + 1) =~= strings_view(self.root@).take(k as int).push(
                    self.root@[k as int]@,
                ));
            }
            k = k + 1;
        }
        assert(strings_view(self.root@).take(self.root@.len() as int) =~= strings_view(self.root@));
        let ghost base = strings_view(out@);
        let mut j: usize = 0;
        while j < parts.len()
            invariant
                j <= parts@.len(),
                strings_view(out@) == base + parts@.map_values(|p: &str| p@).take(j as int),
            decreases parts.len() - j,
        {
            let x = owned(parts[j]);
            let ghost before = out@;
            out.push(x);
            proof {
                assert(strings_view(out@) =~= strings_view(before).push(x@));
                assert(parts@.map_values(|p: &str| p@).take(j + 1) =~= parts@.map_values(|p: &str| p@).take(j as int).push(
                    parts@[j as int]@,
                ));
            }
            j = j + 1;
        }
        assert(parts@.map_values(|p: &str| p@).take(parts@.len() as int) =~= parts@.map_values(|p: &str| p@));
        out
    }

    /// A knowledge base's directory: `knowledge_bases/{kb_id}` under the root.
    pub fn knowledge_base_dir(&self, kb_id: &str) -> (r: Vec<String>)
        ensures
            strings_view(r@) == strings_view(self.root@) + seq!["knowledge_bases"@, kb_id@],
    {
        let parts: [&str; 2] = ["knowledge_bases", kb_id];
        let r = self.below(&parts);
        assert(parts@.map_values(|p: &str| p@) =~= seq!["knowledge_bases"@, kb_id@]);
        r
    }

    /// A knowledge base's original documents: its directory's `documents`.
    pub fn documents_dir(&self, kb_id: &str) -> (r: Vec<String>)
        ensures
            strings_view(r@) == strings_view(self.root@) + seq!["knowledge_bases"@, kb_id@, "documents"@],
    {
        let parts: [&str; 3] = ["knowledge_bases", kb_id, "documents"];
        let r = self.below(&parts);
        assert(parts@.map_values(|p: &str| p@) =~= seq!["knowledge_bases"@, kb_id@, "documents"@]);
        r
    }

    /// A knowledge base's vector index: its directory's `vector_index`.
    pub fn vector_index_dir(&self, kb_id: &str) -> (r: Vec<String>)
        ensures
            strings_view(r@) == strings_view(self.root@) + seq!["knowledge_bases"@, kb_id@, "vector_index"@],
    {
        let parts: [&str; 3] = ["knowledge_bases", kb_id, "vector_index"];
        let r = self.below(&parts);
        assert(parts@.map_values(|p: &str| p@) =~= seq!["knowledge_bases"@, kb_id@, "vector_index"@]);
        r
    }

    /// A knowledge base's configuration file: its directory's `config.json`.
    pub fn knowledge_base_config(&self, kb_id: &str) -> (r: Vec<String>)
        ensures
            strings_view(r@) == strings_view(self.root@) + seq!["knowledge_bases"@, kb_id@, "config.json"@],
    {
        let parts: [&str; 3] = ["knowledge_bases", kb_id, "config.json"];
        let r = self.below(&parts);
        assert(parts@.map_values(|p: &str| p@) =~= seq!["knowledge_bases"@, kb_id@, "config.json"@]);
        r
    }

    /// The database file: `zhishiku.db` under the root.
    pub fn database_path(&self) -> (r: Vec<String>)
        ensures
            strings_view(r@) == strings_view(self.root@) + seq!["zhishiku.db"@],
    {
        let parts: [&str; 1] = ["zhishiku.db"];
        let r = self.below(&parts);
        assert(parts@.map_values(|p: &str| p@) =~= seq!["zhishiku.db"@]);
        r
    }

    /// The log directory: `logs` under the root.
    pub fn logs_dir(&self) -> (r: Vec<String>)
        ensures
            strings_view(r@) == strings_view(self.root@) + seq!["logs"@],
    {
        let parts: [&str; 1] = ["logs"];
        let r = self.below(&parts);
        assert(parts@.map_values(|p: &str| p@) =~= seq!["logs"@]);
        r
    }

    /// The model cache: `models` under the root.
    pub fn models_dir(&self) -> (r: Vec<String>)
        ensures
            strings_view(r@) == strings_view(self.root@) + seq!["models"@],
    {
        let parts: [&str; 1] = ["models"];
        let r = self.below(&parts);
        assert(parts@.map_values(|p: &str| p@) =~= seq!["models"@]);
        r
    }
}

/// The application's settings.
#[derive(Debug, Clone)]
pub struct AppSettings {
    /// The model service's address; empty for the default.
    pub ollama_base_url: String,
    /// A mirror of the model registry; empty for none.
    pub ollama_registry: String,
    /// An HTTPS proxy; empty for none.
    pub https_proxy: String,
    /// Whether models go to the application's own model directory.
    pub use_custom_models_dir: bool,
    /// Download attempts, the first included.
    pub download_max_retries: u32,
    /// Connection timeout in seconds.
    pub download_connect_timeout_secs: u64,
    /// Request timeout in seconds.
    pub download_request_timeout_secs: u64,
    /// Question-answering options, as JSON.
    pub query_options: String,
    /// The chat model; empty for the default.
    pub chat_model: String,
}

/// Settings as a mathematical value.
pub struct SettingsView {
    pub ollama_base_url: Seq<char>,
    pub ollama_registry: Seq<char>,
    pub https_proxy: Seq<char>,
    pub use_custom_models_dir: bool,
    pub download_max_retries: u32,
    pub download_connect_timeout_secs: u64,
    pub download_request_timeout_secs: u64,
    pub query_options: Seq<char>,
    pub chat_model: Seq<char>,
}

impl View for AppSettings {
    type V = SettingsView;

    open spec fn view(&self) -> SettingsView {
        SettingsView {
            ollama_base_url: self.ollama_base_url@,
            ollama_registry: self.ollama_registry@,
            https_proxy: self.https_proxy@,
            use_custom_models_dir: self.use_custom_models_dir,
            download_max_retries: self.download_max_retries,
            download_connect_timeout_secs: self.download_connect_timeout_secs,
            download_request_timeout_secs: self.download_request_timeout_secs,
            query_options: self.query_options@,
            chat_model: self.chat_model@,
        }
    }
}

/// The default question-answering options.
pub const DEFAULT_QUERY_OPTIONS: &'static str = r#"{"top_k":4,"temperature":0.7,"max_tokens":1024,"use_history":true}"#;

/// The default settings: no address, mirror or proxy, the service's own model
/// directory, 3 attempts, 30 s to connect, 600 s per request, the default
/// question options and the default chat model.
pub open spec fn default_settings() -> SettingsView {
    SettingsView {
        ollama_base_url: Seq::empty(),
        ollama_registry: Seq::empty(),
        https_proxy: Seq::empty(),
        use_custom_models_dir: false,
        download_max_retries: 3,
        download_connect_timeout_secs: 30,
        download_request_timeout_secs: 600,
        query_options: DEFAULT_QUERY_OPTIONS@,
        chat_model: Seq::empty(),
    }
}

/// The default number of download attempts.
pub fn default_max_retries() -> (r: u32)
    ensures
        r == 3,
{
    3
}

/// The default connection timeout in seconds.
pub fn default_connect_timeout() -> (r: u64)
    ensures
        r == 30,
{
    30
}

/// The default request timeout in seconds.
pub fn default_request_timeout() -> (r: u64)
    ensures
        r == 600,
{
    600
}

/// The default question-answering options.
pub fn default_query_options() -> (r: String)
    ensures
        r@ == DEFAULT_QUERY_OPTIONS@,
{
    owned(DEFAULT_QUERY_OPTIONS)
}

impl Default for AppSettings {
    /// The default settings (`default_settings`).
    fn default() -> (r: Self)
        ensures
            r@ == default_settings(),
    {
        AppSettings {
            ollama_base_url: String::new(),
            ollama_registry: String::new(),
            https_proxy: String::new(),
            use_custom_models_dir: false,
            download_max_retries: default_max_retries(),
            download_connect_timeout_secs: default_connect_timeout(),
            download_request_timeout_secs: default_request_timeout(),
            query_options: default_query_options(),
            chat_model: String::new(),
        }
    }
}

impl AppSettings {
    /// The service address in effect: the configured one unless empty.
    pub fn effective_ollama_url(&self) -> (r: &str)
        ensures
            r@ == (if self.ollama_base_url@.len() == 0 {
                DEFAULT_OLLAMA_URL@
            } else {
                self.ollama_base_url@
            }),
    {
        if self.ollama_base_url.as_str().is_empty() {
            DEFAULT_OLLAMA_URL
        } else {
            self.ollama_base_url.as_str()
        }
    }

    /// A copy of the settings.
    pub fn copied(&self) -> (r: AppSettings)
        ensures
            r@ == self@,
    {
        AppSettings {
            ollama_base_url: copy_string(&self.ollama_base_url),
            ollama_registry: copy_string(&self.ollama_registry),
            https_proxy: copy_string(&self.https_proxy),
            use_custom_models_dir: self.use_custom_models_dir,
            download_max_retries: self.download_max_retries,
            download_connect_timeout_secs: self.download_connect_timeout_secs,
            download_request_timeout_secs: self.download_request_timeout_secs,
            query_options: copy_string(&self.query_options),
            chat_model: copy_string(&self.chat_model),
        }
    }

    /// Whether a proxy is configured.
    pub fn proxy_enabled(&self) -> (r: bool)
        ensures
            r == (self.https_proxy@.len() > 0),
    {
        !self.https_proxy.as_str().is_empty()
    }

    /// Whether a registry mirror is configured.
    pub fn registry_enabled(&self) -> (r: bool)
        ensures
            r == (self.ollama_registry@.len() > 0),
    {
        !self.ollama_registry.as_str().is_empty()
    }

    /// The chat model in effect: the configured one unless empty.
    pub fn effective_chat_model(&self) -> (r: &str)
        ensures
            r@ == (if self.chat_model@.len() == 0 {
                DEFAULT_CHAT_MODEL@
            } else {
                self.chat_model@
            }),
    {
        if self.chat_model.as_str().is_empty() {
            DEFAULT_CHAT_MODEL
        } else {
            self.chat_model.as_str()
        }
    }
}

/// A stored number read back, or `fallback` when it does not read as one.
pub open spec fn number_or(v: Seq<char>, limit: int, fallback: int) -> int {
    match parse_unsigned(v, limit) {
        Some(n) => n,
        None => fallback,
    }
}

/// The settings after reading one stored pair: a known key sets its field
/// (numbers that do not read fall back to their defaults, a flag is set by
/// `true`); an unknown key changes nothing.
pub open spec fn apply_pair(s: SettingsView, k: Seq<char>, v: Seq<char>) -> SettingsView {
    if k == "ollama_base_url"@ {
        SettingsView { ollama_base_url: v, ..s }
    } else if k == "ollama_registry"@ {
        SettingsView { ollama_registry: v, ..s }
    } else if k == "https_proxy"@ {
        SettingsView { https_proxy: v, ..s }
    } else if k == "use_custom_models_dir"@ {
        SettingsView { use_custom_models_dir: v == "true"@, ..s }
    } else if k == "download_max_retries"@ {
        SettingsView { download_max_retries: number_or(v, u32::MAX as int, 3) as u32, ..s }
    } else if k == "download_connect_timeout_secs"@ {
        SettingsView { download_connect_timeout_secs: number_or(v, u64::MAX as int, 30) as u64, ..s }
    } else if k == "download_request_timeout_secs"@ {
        SettingsView { download_request_timeout_secs: number_or(v, u64::MAX as int, 600) as u64, ..s }
    } else if k == "query_options"@ {
        SettingsView { query_options: v, ..s }
    } else if k == "chat_model"@ {
        SettingsView { chat_model: v, ..s }
    } else {
        s
    }
}

/// The settings after reading the stored pairs in order, from the defaults.
pub open spec fn apply_pairs(s: SettingsView, pairs: Seq<(Seq<char>, Seq<char>)>) -> SettingsView
    decreases pairs.len(),
{
    if pairs.len() == 0 {
        s
    } else {
        apply_pair(apply_pairs(s, pairs.drop_last()), pairs.last().0, pairs.last().1)
    }
}

/// The views of stored pairs.
pub open spec fn pairs_view(v: Seq<(String, String)>) -> Seq<(Seq<char>, Seq<char>)> {
    v.map_values(|p: (String, String)| (p.0@, p.1@))
}

/// The pairs under which settings are stored: every setting under its key,
/// numbers in decimal, the flag as `true` or `false`.
pub open spec fn stored_pairs(s: SettingsView) -> Seq<(Seq<char>, Seq<char>)> {
    seq![
        ("ollama_base_url"@, s.ollama_base_url),
        ("ollama_registry"@, s.ollama_registry),
        ("https_proxy"@, s.https_proxy),
        ("use_custom_models_dir"@, if s.use_custom_models_dir { "true"@ } else { "false"@ }),
        ("download_max_retries"@, decimal(s.download_max_retries as nat)),
        ("download_connect_timeout_secs"@, decimal(s.download_connect_timeout_secs as nat)),
        ("download_request_timeout_secs"@, decimal(s.download_request_timeout_secs as nat)),
        ("query_options"@, s.query_options),
        ("chat_model"@, s.chat_model),
    ]
}

impl AppSettings {
    /// Reads one stored pair (`apply_pair`).
    pub fn apply_setting(&mut self, key: &str, value: &str)
        ensures
            final(self)@ == apply_pair(old(self)@, key@, value@),
    {
        if str_eq(key, "ollama_base_url") {
            self.ollama_base_url = owned(value);
        } else if str_eq(key, "ollama_registry") {
            self.ollama_registry = owned(value);
        } else if str_eq(key, "https_proxy") {
            self.https_proxy = owned(value);
        } else if str_eq(key, "use_custom_models_dir") {
            self.use_custom_models_dir = str_eq(value, "true");
        } else if str_eq(key, "download_max_retries") {
            let v = chars_of(value);
            self.download_max_retries = match parse_unsigned_chars(&v, u32::MAX as u64) {
                Some(n) => n as u32,
                None => 3,
            };
        } else if str_eq(key, "download_connect_timeout_secs") {
            let v = chars_of(value);
            self.download_connect_timeout_secs = match parse_unsigned_chars(&v, u64::MAX) {
                Some(n) => n,
                None => 30,
            };
        } else if str_eq(key, "download_request_timeout_secs") {
            let v = chars_of(value);
            self.download_request_timeout_secs = match parse_unsigned_chars(&v, u64::MAX) {
                Some(n) => n,
                None => 600,
            };
        } else if str_eq(key, "query_options") {
            self.query_options = owned(value);
        } else if str_eq(key, "chat_model") {
            self.chat_model = owned(value);
        }
    }

    /// The settings read from stored pairs, starting from the defaults (`apply_pairs`).
    pub fn from_pairs(pairs: &Vec<(String, String)>) -> (r: AppSettings)
        ensures
            r@ == apply_pairs(default_settings(), pairs_view(pairs@)),
    {
        let mut s = AppSettings::default();
        let ghost pv = pairs_view(pairs@);
        let mut k: usize = 0;
        proof {
            assert(pv.take(0) =~= Seq::<(Seq<char>, Seq<char>)>::empty());
        }
        while k < pairs.len()
            invariant
                pv == pairs_view(pairs@),
                k <= pv.len(),
                s@ == apply_pairs(default_settings(), pv.take(k as int)),
            decreases pairs.len() - k,
        {
            let p = &pairs[k];
            s.apply_setting(p.0.as_str(), p.1.as_str());
            proof {
                assert(pv.take(k + 1).drop_last() =~= pv.take(k as int));
                assert(pv.take(k + 1).last() == (p.0@, p.1@));
            }
            k = k + 1;
        }
        assert(pv.take(pv.len() as int) =~= pv);
        s
    }

    /// The pairs under which the settings are stored (`stored_pairs`).
    pub fn to_pairs(&self) -> (r: Vec<(String, String)>)
        ensures
            pairs_view(r@) == stored_pairs(self@),
    {
        let mut v: Vec<(String, String)> = Vec::new();
        v.push((owned("ollama_base_url"), copy_string(&self.ollama_base_url)));
        v.push((owned("ollama_registry"), copy_string(&self.ollama_registry)));
        v.push((owned("https_proxy"), copy_string(&self.https_proxy)));
        let flag = if self.use_custom_models_dir {
            owned("true")
        } else {
            owned("false")
        };
        v.push((owned("use_custom_models_dir"), flag));
        v.push((owned("download_max_retries"), string_of(&u64_to_decimal(self.download_max_retries as u64))));
        v.push((owned("download_connect_timeout_secs"), string_of(&u64_to_decimal(self.download_connect_timeout_secs))));
        v.push((owned("download_request_timeout_secs"), string_of(&u64_to_decimal(self.download_request_timeout_secs))));
        v.push((owned("query_options"), copy_string(&self.query_options)));
        v.push((owned("chat_model"), copy_string(&self.chat_model)));
        assert(pairs_view(v@) =~= stored_pairs(self@));
        v
    }
}

/// Settings read back from the pairs they were stored under are the same
/// settings: what `update_all` writes, `load_all` gives back.
pub proof fn lemma_settings_roundtrip(s: SettingsView)
    ensures
        apply_pairs(default_settings(), stored_pairs(s)) == s,
{
    reveal_strlit("ollama_base_url");
    reveal_strlit("ollama_registry");
    reveal_strlit("https_proxy");
    reveal_strlit("use_custom_models_dir");
    reveal_strlit("download_max_retries");
    reveal_strlit("download_connect_timeout_secs");
    reveal_strlit("download_request_timeout_secs");
    reveal_strlit("query_options");
    reveal_strlit("chat_model");
    reveal_strlit("true");
    reveal_strlit("false");
    lemma_parse_decimal(s.download_max_retries as nat, u32::MAX as int);
    lemma_parse_decimal(s.download_connect_timeout_secs as nat, u64::MAX as int);
    lemma_parse_decimal(s.download_request_timeout_secs as nat, u64::MAX as int);
    assert("ollama_base_url"@ != "ollama_registry"@) by {
        assert("ollama_base_url"@[7] != "ollama_registry"@[7]);
    }
    assert("download_connect_timeout_secs"@ != "download_request_timeout_secs"@) by {
        assert("download_connect_timeout_secs"@[9] != "download_request_timeout_secs"@[9]);
    }
    assert("true"@.len() == 4 && "false"@.len() == 5);
    assert("ollama_base_url"@.len() == 15 && "ollama_registry"@.len() == 15 && "https_proxy"@.len() == 11);
    assert("use_custom_models_dir"@.len() == 21 && "download_max_retries"@.len() == 20);
    assert("download_connect_timeout_secs"@.len() == 29 && "download_request_timeout_secs"@.len() == 29);
    assert("query_options"@.len() == 13 && "chat_model"@.len() == 10);
    let p = stored_pairs(s);
    assert(p.take(1).drop_last() =~= p.take(0));
    assert(p.take(2).drop_last() =~= p.take(1));
    assert(p.take(3).drop_last() =~= p.take(2));
    assert(p.take(4).drop_last() =~= p.take(3));
    assert(p.take(5).drop_last() =~= p.take(4));
    assert(p.take(6).drop_last() =~= p.take(5));
    assert(p.take(7).drop_last() =~= p.take(6));
    assert(p.take(8).drop_last() =~= p.take(7));
    assert(p.drop_last() =~= p.take(8));
    assert(p.take(0) =~= Seq::<(Seq<char>, Seq<char>)>::empty());
    let s1 = apply_pairs(default_settings(), p.take(1));
    let s2 = apply_pairs(default_settings(), p.take(2));
    let s3 = apply_pairs(default_settings(), p.take(3));
    let s4 = apply_pairs(default_settings(), p.take(4));
    let s5 = apply_pairs(default_settings(), p.take(5));
    let s6 = apply_pairs(default_settings(), p.take(6));
    let s7 = apply_pairs(default_settings(), p.take(7));
    let s8 = apply_pairs(default_settings(), p.take(8));
    assert(s1.ollama_base_url == s.ollama_base_url);
    assert(s2.ollama_registry == s.ollama_registry);
    assert(s3.https_proxy == s.https_proxy);
    assert(s4.use_custom_models_dir == s.use_custom_models_dir);
    assert(s5.download_max_retries == s.download_max_retries);
    assert(s6.download_connect_timeout_secs == s.download_connect_timeout_secs);
    assert(s7.download_request_timeout_secs == s.download_request_timeout_secs);
    assert(s8.query_options == s.query_options);
}

} // verus!
