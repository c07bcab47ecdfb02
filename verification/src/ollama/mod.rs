//! The local model service: names, addresses and the rules around them.
use vstd::prelude::*;
use crate::config::AppSettings;
use crate::text::owned;

pub mod client;
pub mod download;
pub mod http;
pub mod names;
pub mod process;
pub mod stream;

verus! {

/// The chat model used when none is configured.
pub const DEFAULT_CHAT_MODEL: &'static str = "qwen3:1.7b";

/// The embedding model, the same for every knowledge base (the vector
/// dimension is tied to it).
pub const DEFAULT_EMBEDDING_MODEL: &'static str = "nomic-embed-text";

/// The address of the model service when none is configured.
pub const DEFAULT_OLLAMA_URL: &'static str = "http://127.0.0.1:11434";

/// A recommended chat model, offered in the settings.
#[derive(Debug, Clone, Copy)]
pub struct RecommendedChatModel {
    pub name: &'static str,
    pub tier_label: &'static str,
    pub size_hint: &'static str,
}

/// The recommended chat models, lightest first.
pub fn recommended_chat_models() -> (r: Vec<RecommendedChatModel>)
    ensures
        r@.len() == 4,
        r@[0].name@ == DEFAULT_CHAT_MODEL@,
        r@[1].name@ == "qwen3:4b"@,
        r@[2].name@ == "qwen3:8b"@,
        r@[3].name@ == "deepseek-r1:14b"@,
        r@[0].tier_label@ == "轻量(默认)"@,
        r@[1].tier_label@ == "均衡"@,
        r@[2].tier_label@ == "高配"@,
        r@[3].tier_label@ == "旗舰(推理增强)"@,
        r@[0].size_hint@ == "约 1.4GB,8GB 内存可运行"@,
        r@[1].size_hint@ == "约 2.6GB,建议 16GB 内存"@,
        r@[2].size_hint@ == "约 5.2GB,建议 16GB 内存 + 8GB 显存"@,
        r@[3].size_hint@ == "约 9GB,建议 32GB 内存或 12GB+ 显存"@,
{
    let mut v: Vec<RecommendedChatModel> = Vec::new();
    v.push(RecommendedChatModel { name: DEFAULT_CHAT_MODEL, tier_label: "轻量(默认)", size_hint: "约 1.4GB,8GB 内存可运行" });
    v.push(RecommendedChatModel { name: "qwen3:4b", tier_label: "均衡", size_hint: "约 2.6GB,建议 16GB 内存" });
    v.push(RecommendedChatModel { name: "qwen3:8b", tier_label: "高配", size_hint: "约 5.2GB,建议 16GB 内存 + 8GB 显存" });
    v.push(RecommendedChatModel { name: "deepseek-r1:14b", tier_label: "旗舰(推理增强)", size_hint: "约 9GB,建议 32GB 内存或 12GB+ 显存" });
    v
}

/// The chat model in effect for the settings: the configured one unless empty.
pub fn effective_chat_model(s: &AppSettings) -> (r: String)
    ensures
        r@ == (if s.chat_model@.len() == 0 {
            DEFAULT_CHAT_MODEL@
        } else {
            s.chat_model@
        }),
{
    owned(s.effective_chat_model())
}

/// The embedding model in effect: always the default one.
pub fn effective_embedding_model(_s: &AppSettings) -> (r: &'static str)
    ensures
        r@ == DEFAULT_EMBEDDING_MODEL@,
{
    DEFAULT_EMBEDDING_MODEL
}

/// The service address in effect for the settings: the configured one unless empty.
pub fn effective_ollama_url(s: &AppSettings) -> (r: String)
    ensures
        r@ == (if s.ollama_base_url@.len() == 0 {
            DEFAULT_OLLAMA_URL@
        } else {
            s.ollama_base_url@
        }),
{
    owned(s.effective_ollama_url())
}

} // verus!
