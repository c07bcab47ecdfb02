//! The library's error type.
use vstd::prelude::*;
use crate::numfmt::{decimal, u64_to_decimal};
use crate::text::{append_chars, chars_of, string_of};

verus! {

/// What can go wrong in the application; errors of outside libraries are
/// carried as their messages.
#[derive(Debug, Clone)]
pub enum AppError {
    Database(String),
    Io(String),
    Parsing(String),
    UnsupportedFormat(String),
    FileTooLarge { size: u64, limit: u64 },
    KnowledgeBaseNotFound(String),
    DocumentNotFound(String),
    OllamaNotRunning,
    Http(String),
    Serde(String),
    Other(String),
}

/// A result whose error is an `AppError`.
pub type AppResult<T> = Result<T, AppError>;

/// The message shown for an error.
pub open spec fn error_message(e: AppError) -> Seq<char> {
    match e {
        AppError::Database(s) => "数据库错误: "@ + s@,
        AppError::Io(s) => "IO 错误: "@ + s@,
        AppError::Parsing(s) => "文档解析错误: "@ + s@,
        AppError::UnsupportedFormat(s) => "文件格式不支持: "@ + s@,
        AppError::FileTooLarge { size, limit } => "文件过大: "@ + decimal(size as nat) + " bytes, 上限 "@ + decimal(
            limit as nat,
        ) + " bytes"@,
        AppError::KnowledgeBaseNotFound(s) => "知识库不存在: "@ + s@,
        AppError::DocumentNotFound(s) => "文档不存在: "@ + s@,
        AppError::OllamaNotRunning => "Ollama 服务未运行"@,
        AppError::Http(s) => "HTTP 请求错误: "@ + s@,
        AppError::Serde(s) => "序列化错误: "@ + s@,
        AppError::Other(s) => "其他错误: "@ + s@,
    }
}

/// `prefix` followed by `detail`.
fn prefixed(prefix: &str, detail: &String) -> (r: String)
    ensures
        r@ == prefix@ + detail@,
{
    let mut v = chars_of(prefix);
    let d = chars_of(detail.as_str());
    append_chars(&mut v, &d);
    string_of(&v)
}

impl AppError {
    /// The message shown for the error (`error_message`).
    pub fn message(&self) -> (r: String)
        ensures
            r@ == error_message(*self),
    {
        match self {
            AppError::Database(s) => prefixed("数据库错误: ", s),
            AppError::Io(s) => prefixed("IO 错误: ", s),
            AppError::Parsing(s) => prefixed("文档解析错误: ", s),
            AppError::UnsupportedFormat(s) => prefixed("文件格式不支持: ", s),
            AppError::FileTooLarge { size, limit } => {
                let mut v = chars_of("文件过大: ");
                let a = u64_to_decimal(*size);
                append_chars(&mut v, &a);
                let mid = chars_of(" bytes, 上限 ");
                append_chars(&mut v, &mid);
                let b = u64_to_decimal(*limit);
                append_chars(&mut v, &b);
                let tail = chars_of(" bytes");
                append_chars(&mut v, &tail);
                string_of(&v)
            },
            AppError::KnowledgeBaseNotFound(s) => prefixed("知识库不存在: ", s),
            AppError::DocumentNotFound(s) => prefixed("文档不存在: ", s),
            AppError::OllamaNotRunning => {
                let v = chars_of("Ollama 服务未运行");
                string_of(&v)
            },
            AppError::Http(s) => prefixed("HTTP 请求错误: ", s),
            AppError::Serde(s) => prefixed("序列化错误: ", s),
            AppError::Other(s) => prefixed("其他错误: ", s),
        }
    }
}

} // verus!
