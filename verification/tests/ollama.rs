use simplethinktank::config::AppSettings;
use simplethinktank::ollama::client::{
    client_base_url, DownloadRateTracker, GenerateResponse, OllamaClient, OllamaClientConfig, TestSourceRequest,
    TestSourceResult,
};
use simplethinktank::ollama::download::{max_attempts, next_pull_step, retry_message, should_emit, PullStep};
use simplethinktank::ollama::names::{
    chat_models_only, is_embedding_model_name, model_listed, normalize_model_ref, normalize_pull_status, summarize_models,
};
use simplethinktank::ollama::process::{
    models_to_unload, serve_env, should_stop, startup_state, OllamaManager, ProcessOwnership, ShutdownReport,
};
use simplethinktank::ollama::stream::{take_lines, GenerateStream};
use simplethinktank::ollama::{
    effective_chat_model, effective_embedding_model, effective_ollama_url, recommended_chat_models, DEFAULT_CHAT_MODEL,
    DEFAULT_EMBEDDING_MODEL,
};

#[test]
fn test_normalize_model_ref() {
    assert_eq!(normalize_model_ref("nomic-embed-text"), "nomic-embed-text:latest");
    assert_eq!(normalize_model_ref("qwen3:1.7b"), "qwen3:1.7b");
    assert_eq!(normalize_model_ref("nomic-embed-text:latest"), "nomic-embed-text:latest");
}

#[test]
fn test_embedding_model_match_with_implicit_latest() {
    let scanned = vec!["qwen3:1.7b".to_string(), "nomic-embed-text:latest".to_string()];
    let emb_ref = normalize_model_ref(DEFAULT_EMBEDDING_MODEL);
    assert!(scanned.iter().any(|m| m == &emb_ref));
    let chat_candidates: Vec<&String> = scanned.iter().filter(|m| !is_embedding_model_name(m)).collect();
    assert_eq!(chat_candidates, vec!["qwen3:1.7b"]);
}

#[test]
fn embedding_names_are_recognised_case_aside() {
    assert!(is_embedding_model_name("BGE-M3"));
    assert!(is_embedding_model_name("all-MiniLM-L6-v2"));
    assert!(is_embedding_model_name("e5-large"));
    assert!(is_embedding_model_name("mxbai-embed-large"));
    assert!(!is_embedding_model_name("qwen3:8b"));
    assert!(!is_embedding_model_name("llama-e5"));
}

#[test]
fn pull_status_drops_the_layer_digest() {
    assert_eq!(normalize_pull_status("pulling 3d0b790534fe"), "pulling");
    assert_eq!(normalize_pull_status("success"), "success");
    assert_eq!(normalize_pull_status("pulling"), "pulling");
}

#[test]
fn chat_models_leave_out_embedding_models() {
    let models = vec!["nomic-embed-text:latest".to_string(), "qwen3:4b".to_string(), "bge-m3:latest".to_string()];
    assert_eq!(chat_models_only(&models), vec!["qwen3:4b".to_string()]);
}

#[test]
fn models_on_disk_use_implicit_latest_tags() {
    let found = vec!["nomic-embed-text:latest".to_string(), "qwen3:1.7b".to_string()];
    let s = summarize_models(found, "qwen3:1.7b".to_string(), vec!["/m".to_string()]);
    assert!(s.chat_model_installed);
    assert!(s.embedding_model_installed);
    assert!(s.all_installed);
    assert_eq!(s.local_chat_models, vec!["qwen3:1.7b".to_string()]);
    let s2 = summarize_models(vec!["qwen3:1.7b".to_string()], "qwen3:4b".to_string(), vec![]);
    assert!(!s2.chat_model_installed);
    assert!(!s2.all_installed);
}

#[test]
fn effective_models_and_address() {
    let mut s = AppSettings::default();
    assert_eq!(effective_chat_model(&s), DEFAULT_CHAT_MODEL);
    assert_eq!(effective_ollama_url(&s), "http://127.0.0.1:11434");
    assert_eq!(effective_embedding_model(&s), "nomic-embed-text");
    s.chat_model = "qwen3:8b".to_string();
    s.ollama_base_url = "http://10.0.0.2:11434".to_string();
    assert_eq!(effective_chat_model(&s), "qwen3:8b");
    assert_eq!(effective_ollama_url(&s), "http://10.0.0.2:11434");
}

#[test]
fn recommended_models_start_with_the_default() {
    let v = recommended_chat_models();
    assert_eq!(v.len(), 4);
    assert_eq!(v[0].name, DEFAULT_CHAT_MODEL);
    assert_eq!(v[3].name, "deepseek-r1:14b");
}

#[test]
fn client_config_follows_the_settings() {
    let d = OllamaClientConfig::default();
    assert_eq!(d.base_url, "http://127.0.0.1:11434");
    assert_eq!(d.connect_timeout_secs, 30);
    assert_eq!(d.request_timeout_secs, 300);
    let mut s = AppSettings::default();
    s.https_proxy = "http://127.0.0.1:7890".to_string();
    let c = OllamaClientConfig::from_settings(&s);
    assert_eq!(c.proxy.as_deref(), Some("http://127.0.0.1:7890"));
    assert_eq!(c.connect_timeout_secs, 30);
    assert_eq!(c.request_timeout_secs, 600);
    assert_eq!(client_base_url("http://h:1//"), "http://h:1");
    assert_eq!(client_base_url("http://h:1"), "http://h:1");
}

#[test]
fn rate_tracker_measures_since_the_last_report() {
    let mut t = DownloadRateTracker::new();
    assert_eq!(t.advance(100, 1000), None);
    assert_eq!(t.advance(600, 1500), Some((500, 500)));
    assert_eq!(t.advance(500, 1600), None);
    assert_eq!(t.last_completed, 500);
}

#[test]
fn source_test_defaults_and_outcomes() {
    let r = TestSourceRequest { registry: Some(String::new()), proxy: Some(String::new()) };
    assert_eq!(r.probe_url(), "https://registry.ollama.ai");
    assert_eq!(r.probe_proxy(), None);
    let r2 = TestSourceRequest { registry: Some("https://hf-mirror.com/ollama".to_string()), proxy: None };
    assert_eq!(r2.probe_url(), "https://hf-mirror.com/ollama");
    let ok = TestSourceResult::from_status(301, "301 Moved Permanently", 12);
    assert!(ok.ok);
    assert_eq!(ok.message, "HTTP 301 Moved Permanently");
    assert!(!TestSourceResult::from_status(404, "404 Not Found", 3).ok);
    assert!(!TestSourceResult::from_error("timeout", 10_000).ok);
}

#[test]
fn retries_back_off_exponentially() {
    assert_eq!(next_pull_step(false, false, 1, 3), PullStep::Retry(1));
    assert_eq!(next_pull_step(false, false, 2, 3), PullStep::Retry(2));
    assert_eq!(next_pull_step(false, false, 3, 3), PullStep::Failed);
    assert_eq!(next_pull_step(false, true, 1, 3), PullStep::Cancelled);
    assert_eq!(next_pull_step(true, false, 1, 3), PullStep::Done);
    assert_eq!(next_pull_step(false, false, 11, 64), PullStep::Retry(1024));
    assert_eq!(retry_message(2, 2, "boom"), "第 2 次失败,2秒后重试: boom");
    let mut s = AppSettings::default();
    s.download_max_retries = 0;
    assert_eq!(max_attempts(&s), 1);
}

#[test]
fn progress_reports_are_throttled() {
    assert!(should_emit("success", Some(1)));
    assert!(should_emit("pulling", None));
    assert!(!should_emit("pulling", Some(499)));
    assert!(should_emit("pulling", Some(500)));
}

#[test]
fn a_service_the_user_started_is_left_running() {
    let (status, own) = startup_state(true, true, true);
    assert!(status.default_models_available);
    assert!(!status.managed_by_app);
    assert!(!should_stop(Some(own), false));
    assert!(should_stop(Some(own), true));
    let (_, mut own2) = startup_state(true, false, true);
    own2.mark_started();
    assert!(should_stop(Some(own2), false));
    assert!(!should_stop(None, false));
}

#[test]
fn serve_environment_follows_the_settings() {
    let mut s = AppSettings::default();
    let base = serve_env(&s, Some("/models"));
    assert_eq!(base.len(), 2);
    s.ollama_registry = "https://mirror".to_string();
    s.https_proxy = "http://p:1".to_string();
    s.use_custom_models_dir = true;
    let env = serve_env(&s, Some("/models"));
    let keys: Vec<&str> = env.iter().map(|(k, _)| k.as_str()).collect();
    assert_eq!(
        keys,
        vec!["OLLAMA_HOST", "OLLAMA_ORIGINS", "OLLAMA_REGISTRY", "HTTPS_PROXY", "HTTP_PROXY", "NO_PROXY", "OLLAMA_MODELS"]
    );
    assert_eq!(env[6].1, "/models");
}

#[test]
fn ownership_type_is_plain() {
    let o = ProcessOwnership { pre_existing: false, app_started: false };
    assert!(!should_stop(Some(o), false));
}

#[test]
fn lines_are_cut_at_newlines_whatever_the_pieces() {
    let mut buf = String::new();
    let first = take_lines(&mut buf, "{\"a\":1}\n  \n{\"b\"");
    assert_eq!(first, vec!["{\"a\":1}".to_string()]);
    assert_eq!(buf, "{\"b\"");
    let second = take_lines(&mut buf, ":2}  \n\ntail");
    assert_eq!(second, vec!["{\"b\":2}".to_string()]);
    assert_eq!(buf, "tail");

    let mut whole = String::new();
    let all = take_lines(&mut whole, "{\"a\":1}\n  \n{\"b\":2}  \n\ntail");
    let mut pieces = first.clone();
    pieces.extend(second);
    assert_eq!(all, pieces);
    assert_eq!(whole, buf);
}

fn piece(response: &str, done: bool) -> GenerateResponse {
    GenerateResponse {
        model: "m".to_string(),
        response: response.to_string(),
        done,
        context: None,
        total_duration: None,
        load_duration: None,
        prompt_eval_count: None,
        eval_count: Some(7),
    }
}

#[test]
fn streamed_generation_gathers_its_pieces() {
    let mut g = GenerateStream::new();
    assert!(g.take_text(&piece("Hel", false)));
    g.note_done(piece("Hel", false));
    assert!(g.take_text(&piece("lo", false)));
    g.note_done(piece("lo", false));
    assert!(!g.take_text(&piece("", true)));
    g.note_done(piece("", true));
    let r = g.finish("fallback");
    assert_eq!(r.response, "Hello");
    assert!(r.done);
    assert_eq!(r.model, "m");
    assert_eq!(r.eval_count, Some(7));
}

#[test]
fn streamed_generation_without_final_piece_uses_the_model_asked() {
    let mut g = GenerateStream::new();
    assert!(g.take_text(&piece("abc", false)));
    let r = g.finish("qwen3:1.7b");
    assert_eq!(r.model, "qwen3:1.7b");
    assert_eq!(r.response, "abc");
    assert!(r.done);
    assert_eq!(r.eval_count, None);
}

#[test]
fn stopped_generation_is_not_done() {
    let mut g = GenerateStream::new();
    assert!(g.take_text(&piece("ab", false)));
    let r = g.stopped(piece("ab", true));
    assert_eq!(r.response, "ab");
    assert!(!r.done);
    assert_eq!(r.eval_count, Some(7));
}

#[test]
fn client_addresses_have_no_trailing_slash() {
    let c = OllamaClient::new("http://127.0.0.1:11434//").unwrap();
    assert_eq!(c.base_url(), "http://127.0.0.1:11434");
    assert_eq!(c.endpoint("/api/tags"), "http://127.0.0.1:11434/api/tags");
    let d = c.share();
    assert_eq!(d.endpoint("/api/pull"), "http://127.0.0.1:11434/api/pull");
    let cfg = OllamaClientConfig { proxy: Some("not a proxy".to_string()), ..OllamaClientConfig::default() };
    let e = OllamaClient::new_with_config(cfg).unwrap();
    assert_eq!(e.base_url(), "http://127.0.0.1:11434");
}

#[test]
fn manager_hands_out_its_settings_and_client() {
    let mut s = AppSettings::default();
    s.chat_model = "llama3".to_string();
    let m = OllamaManager::new(OllamaClient::new("http://localhost:1/").unwrap(), s);
    assert_eq!(m.settings_snapshot().chat_model, "llama3");
    assert_eq!(m.client_clone().base_url(), "http://localhost:1");
    let unload = models_to_unload(m.settings());
    assert_eq!(unload, vec!["llama3".to_string(), "nomic-embed-text".to_string()]);
}

#[test]
fn shutdown_report_lists_the_steps() {
    let mut r = ShutdownReport::new();
    r.unload_result("qwen3:1.7b", true);
    r.unload_result("nomic-embed-text", false);
    r.stop_result(Some("denied"));
    r.kept_running();
    r.not_running();
    r.stop_result(None);
    assert_eq!(
        r.steps,
        vec![
            "已卸载模型: qwen3:1.7b".to_string(),
            "终止 Ollama 进程失败: denied".to_string(),
            "Ollama 为用户独立运行,不终止进程".to_string(),
            "Ollama 未运行,跳过模型卸载".to_string(),
            "已终止 Ollama 进程".to_string(),
        ]
    );
}

#[test]
fn listed_models_match_by_name_or_tag() {
    let listed = vec!["qwen3:1.7b".to_string(), "nomic-embed-text:latest".to_string()];
    assert!(model_listed(&listed, "qwen3:1.7b"));
    assert!(model_listed(&listed, "qwen3"));
    assert!(model_listed(&listed, "nomic-embed-text"));
    assert!(!model_listed(&listed, "qwen"));
    assert!(!model_listed(&listed, "qwen3:4b"));
    assert!(!model_listed(&Vec::new(), "qwen3"));
}

#[test]
fn probe_client_builds_with_or_without_a_proxy() {
    let direct = TestSourceRequest { registry: None, proxy: None };
    assert!(direct.probe_client().is_ok());
    let proxied = TestSourceRequest { registry: None, proxy: Some("http://127.0.0.1:7890".to_string()) };
    assert!(proxied.probe_client().is_ok());
}

#[test]
fn names_found_on_disk_come_sorted_and_once_each() {
    let found = vec![
        "qwen3:1.7b".to_string(),
        "nomic-embed-text:latest".to_string(),
        "qwen3:1.7b".to_string(),
        "llama3:8b".to_string(),
        "Zeta:latest".to_string(),
    ];
    let mut expected = found.clone();
    expected.sort();
    expected.dedup();
    assert_eq!(simplethinktank::ollama::names::sorted_unique_names(found), expected);
}
