//! Starting and stopping the model service process.
use vstd::prelude::*;
use crate::config::AppSettings;
use crate::ollama::client::OllamaClient;
use crate::ollama::DEFAULT_EMBEDDING_MODEL;
use crate::text::{append_chars, chars_of, copy_string, owned, string_of};

verus! {

/// What is known about the model service.
#[derive(Debug, Clone, Copy)]
pub struct OllamaStatus {
    pub installed: bool,
    pub running: bool,
    pub default_models_available: bool,
    pub managed_by_app: bool,
}

/// Who owns the running service: whether it ran before the application
/// started and whether the application started it.
#[derive(Debug, Clone, Copy)]
pub struct ProcessOwnership {
    pub pre_existing: bool,
    pub app_started: bool,
}

/// What manages the model service: the client that talks to it and the
/// settings it is started with.
pub struct OllamaManager {
    client: OllamaClient,
    settings: AppSettings,
}

impl OllamaManager {
    /// The settings the manager holds.
    pub closed spec fn settings_view(&self) -> crate::config::SettingsView {
        self.settings@
    }

    /// The address its client talks to.
    pub closed spec fn client_base(&self) -> Seq<char> {
        self.client.base()
    }

    /// A manager with `client` and `settings`.
    pub fn new(client: OllamaClient, settings: AppSettings) -> (r: OllamaManager)
        ensures
            r.settings_view() == settings@,
            r.client_base() == client.base(),
    {
        OllamaManager { client, settings }
    }

    /// A copy of the settings the manager holds.
    pub fn settings_snapshot(&self) -> (r: AppSettings)
        ensures
            r@ == self.settings_view(),
    {
        self.settings.copied()
    }

    /// Another handle on the manager's client.
    pub fn client_clone(&self) -> (r: OllamaClient)
        ensures
            r.base() == self.client_base(),
    {
        self.client.share()
    }

    /// The client the manager talks to the service through.
    pub fn client(&self) -> (r: &OllamaClient)
        ensures
            r.base() == self.client_base(),
    {
        &self.client
    }

    /// The settings the manager holds.
    pub fn settings(&self) -> (r: &AppSettings)
        ensures
            r@ == self.settings_view(),
    {
        &self.settings
    }
}

/// The state found at start: the models count as available only when the
/// service runs; the service is not the application's; a running service
/// is recorded as pre-existing.
pub fn startup_state(installed: bool, running: bool, models_available: bool) -> (r: (OllamaStatus, ProcessOwnership))
    ensures
        r.0.installed == installed,
        r.0.running == running,
        r.0.default_models_available == (running && models_available),
        !r.0.managed_by_app,
        r.1.pre_existing == running,
        !r.1.app_started,
{
    (
        OllamaStatus { installed, running, default_models_available: running && models_available, managed_by_app: false },
        ProcessOwnership { pre_existing: running, app_started: false },
    )
}

impl ProcessOwnership {
    /// Records that the application started the service.
    pub fn mark_started(&mut self)
        ensures
            final(self).app_started,
            final(self).pre_existing == old(self).pre_existing,
    {
        self.app_started = true;
    }
}

/// Whether shutting down stops the service: when forced, or when the
/// application started it and it did not run before.
pub open spec fn should_stop_spec(ownership: Option<ProcessOwnership>, force: bool) -> bool {
    force || match ownership {
        Some(o) => o.app_started && !o.pre_existing,
        None => false,
    }
}

/// Whether shutting down stops the service (`should_stop_spec`); a service
/// the user ran before the application is never stopped unless forced.
pub fn should_stop(ownership: Option<ProcessOwnership>, force: bool) -> (r: bool)
    ensures
        r == should_stop_spec(ownership, force),
        (ownership matches Some(o) && o.pre_existing) && !force ==> !r,
{
    match ownership {
        Some(o) => force || (o.app_started && !o.pre_existing),
        None => force,
    }
}

/// The models unloaded when the application shuts down: the chat model in
/// effect, then the embedding model.
pub fn models_to_unload(s: &AppSettings) -> (r: Vec<String>)
    ensures
        r@.len() == 2,
        r@[0]@ == (if s.chat_model@.len() == 0 {
            crate::ollama::DEFAULT_CHAT_MODEL@
        } else {
            s.chat_model@
        }),
        r@[1]@ == DEFAULT_EMBEDDING_MODEL@,
{
    let mut v: Vec<String> = Vec::new();
    v.push(owned(s.effective_chat_model()));
    v.push(owned(DEFAULT_EMBEDDING_MODEL));
    v
}

/// The steps of a shutdown, reported as they happen.
pub struct ShutdownReport {
    pub steps: Vec<String>,
}

/// The views of a list of strings.
pub open spec fn steps_view(v: Seq<String>) -> Seq<Seq<char>> {
    v.map_values(|s: String| s@)
}

/// `prefix` followed by `detail`.
fn joined(prefix: &str, detail: &str) -> (r: String)
    ensures
        r@ == prefix@ + detail@,
{
    let mut v = chars_of(prefix);
    let d = chars_of(detail);
    append_chars(&mut v, &d);
    string_of(&v)
}

impl ShutdownReport {
    /// A report with no step yet.
    pub fn new() -> (r: ShutdownReport)
        ensures
            r.steps@.len() == 0,
    {
        ShutdownReport { steps: Vec::new() }
    }

    fn add(&mut self, step: String)
        ensures
            steps_view(final(self).steps@) == steps_view(old(self).steps@).push(step@),
    {
        let ghost before = self.steps@;
        self.steps.push(step);
        assert(steps_view(self.steps@) =~= steps_view(before).push(step@));
    }

    /// After trying to unload `model`: a step when it was unloaded; a
    /// failure leaves no step.
    pub fn unload_result(&mut self, model: &str, unloaded: bool)
        ensures
            unloaded ==> steps_view(final(self).steps@) == steps_view(old(self).steps@).push("已卸载模型: "@ + model@),
            !unloaded ==> final(self).steps@ == old(self).steps@,
    {
        if unloaded {
            self.add(joined("已卸载模型: ", model));
        }
    }

    /// The service was not running: no model is unloaded.
    pub fn not_running(&mut self)
        ensures
            steps_view(final(self).steps@) == steps_view(old(self).steps@).push("Ollama 未运行,跳过模型卸载"@),
    {
        self.add(owned("Ollama 未运行,跳过模型卸载"));
    }

    /// After trying to stop the process: stopped, or the error's text.
    pub fn stop_result(&mut self, error: Option<&str>)
        ensures
            steps_view(final(self).steps@) == steps_view(old(self).steps@).push(match error {
                None => "已终止 Ollama 进程"@,
                Some(e) => "终止 Ollama 进程失败: "@ + e@,
            }),
    {
        match error {
            None => self.add(owned("已终止 Ollama 进程")),
            Some(e) => self.add(joined("终止 Ollama 进程失败: ", e)),
        }
    }

    /// The service is the user's own and is left running.
    pub fn kept_running(&mut self)
        ensures
            steps_view(final(self).steps@) == steps_view(old(self).steps@).push("Ollama 为用户独立运行,不终止进程"@),
    {
        self.add(owned("Ollama 为用户独立运行,不终止进程"));
    }
}

/// The environment of `ollama serve`.
pub open spec fn serve_env_spec(s: AppSettings, models_dir: Option<Seq<char>>) -> Seq<(Seq<char>, Seq<char>)> {
    let base = seq![("OLLAMA_HOST"@, "127.0.0.1:11434"@), ("OLLAMA_ORIGINS"@, "*"@)];
    let with_registry = if s.ollama_registry@.len() > 0 {
        base.push(("OLLAMA_REGISTRY"@, s.ollama_registry@))
    } else {
        base
    };
    let with_proxy = if s.https_proxy@.len() > 0 {
        with_registry + seq![
            ("HTTPS_PROXY"@, s.https_proxy@),
            ("HTTP_PROXY"@, s.https_proxy@),
            ("NO_PROXY"@, "127.0.0.1,localhost"@),
        ]
    } else {
        with_registry
    };
    match models_dir {
        Some(d) if s.use_custom_models_dir => with_proxy.push(("OLLAMA_MODELS"@, d)),
        _ => with_proxy,
    }
}

/// The views of environment pairs.
pub open spec fn env_view(v: Seq<(String, String)>) -> Seq<(Seq<char>, Seq<char>)> {
    v.map_values(|p: (String, String)| (p.0@, p.1@))
}

fn push_env(v: &mut Vec<(String, String)>, k: &str, val: &str)
    ensures
        env_view(final(v)@) == env_view(old(v)@).push((k@, val@)),
{
    let ghost before = v@;
    v.push((owned(k), owned(val)));
    assert(env_view(v@) =~= env_view(before).push((k@, val@)));
}

/// The environment of `ollama serve` (`serve_env_spec`): local address, any
/// origin, the registry mirror, the proxy (not for local addresses) and the
/// application's model directory, each when configured.
pub fn serve_env(s: &AppSettings, models_dir: Option<&str>) -> (r: Vec<(String, String)>)
    ensures
        env_view(r@) == serve_env_spec(*s, match models_dir {
            Some(d) => Some(d@),
            None => None,
        }),
{
    let ghost md = match models_dir {
        Some(d) => Some(d@),
        None => None::<Seq<char>>,
    };
    let mut v: Vec<(String, String)> = Vec::new();
    push_env(&mut v, "OLLAMA_HOST", "127.0.0.1:11434");
    push_env(&mut v, "OLLAMA_ORIGINS", "*");
    let ghost base = seq![("OLLAMA_HOST"@, "127.0.0.1:11434"@), ("OLLAMA_ORIGINS"@, "*"@)];
    assert(env_view(v@) =~= base);
    let ghost with_registry = if s.ollama_registry@.len() > 0 {
        base.push(("OLLAMA_REGISTRY"@, s.ollama_registry@))
    } else {
        base
    };
    if s.registry_enabled() {
        push_env(&mut v, "OLLAMA_REGISTRY", s.ollama_registry.as_str());
    }
    assert(env_view(v@) == with_registry);
    let ghost with_proxy = if s.https_proxy@.len() > 0 {
        with_registry + seq![
            ("HTTPS_PROXY"@, s.https_proxy@),
            ("HTTP_PROXY"@, s.https_proxy@),
            ("NO_PROXY"@, "127.0.0.1,localhost"@),
        ]
    } else {
        with_registry
    };
    if s.proxy_enabled() {
        push_env(&mut v, "HTTPS_PROXY", s.https_proxy.as_str());
        push_env(&mut v, "HTTP_PROXY", s.https_proxy.as_str());
        push_env(&mut v, "NO_PROXY", "127.0.0.1,localhost");
        assert(env_view(v@) =~= with_proxy);
    }
    assert(env_view(v@) == with_proxy);
    if s.use_custom_models_dir {
        match models_dir {
            Some(d) => push_env(&mut v, "OLLAMA_MODELS", d),
            None => {},
        }
    }
    v
}

} // verus!
