//! The records the application stores and exchanges: knowledge bases,
//! documents, chunks, import progress.
use vstd::prelude::*;
use crate::error::AppError;
use crate::text::{chars_of, copy_string, owned, string_of, trim, trimmed};

verus! {

/// A stored chunk of a document.
#[derive(Debug, Clone)]
pub struct Chunk {
    pub id: String,
    pub document_id: String,
    pub knowledge_base_id: String,
    pub content: String,
    pub chunk_index: i64,
    pub metadata: String,
    pub created_at: String,
}

/// Where a document is in its processing.
#[derive(Debug, Clone, Copy, PartialEq, Eq, Structural)]
pub enum DocumentStatus {
    Pending,
    Parsing,
    Parsed,
    Chunking,
    Chunked,
    Vectorizing,
    Indexed,
    Failed,
}

/// The stored name of a status.
pub open spec fn status_name(s: DocumentStatus) -> Seq<char> {
    match s {
        DocumentStatus::Pending => "pending"@,
        DocumentStatus::Parsing => "parsing"@,
        DocumentStatus::Parsed => "parsed"@,
        DocumentStatus::Chunking => "chunking"@,
        DocumentStatus::Chunked => "chunked"@,
        DocumentStatus::Vectorizing => "vectorizing"@,
        DocumentStatus::Indexed => "indexed"@,
        DocumentStatus::Failed => "failed"@,
    }
}

impl DocumentStatus {
    /// The stored name of the status (`status_name`).
    pub fn as_str(&self) -> (r: &'static str)
        ensures
            r@ == status_name(*self),
    {
        match self {
            DocumentStatus::Pending => "pending",
            DocumentStatus::Parsing => "parsing",
            DocumentStatus::Parsed => "parsed",
            DocumentStatus::Chunking => "chunking",
            DocumentStatus::Chunked => "chunked",
            DocumentStatus::Vectorizing => "vectorizing",
            DocumentStatus::Indexed => "indexed",
            DocumentStatus::Failed => "failed",
        }
    }

    /// The stored name of the status, owned.
    pub fn to_string(&self) -> (r: String)
        ensures
            r@ == status_name(*self),
    {
        owned(self.as_str())
    }
}

/// A stored document.
#[derive(Debug, Clone)]
pub struct Document {
    pub id: String,
    pub knowledge_base_id: String,
    pub file_name: String,
    pub file_path: String,
    pub file_size: i64,
    pub file_type: String,
    pub content_hash: Option<String>,
    pub status: String,
    pub chunk_count: i64,
    pub error_message: Option<String>,
    pub created_at: String,
    pub updated_at: String,
}

/// A request to import files and folders into a knowledge base.
#[derive(Debug, Clone)]
pub struct ImportDocumentsRequest {
    pub knowledge_base_id: String,
    pub file_paths: Vec<String>,
}

/// The progress of an import task.
#[derive(Debug, Clone)]
pub struct ImportProgress {
    pub task_id: String,
    pub total: usize,
    pub completed: usize,
    pub failed: usize,
    pub current_file: Option<String>,
    pub status: String,
}

impl ImportProgress {
    /// A task of `total` files that has just started: nothing done yet,
    /// status `running`.
    pub fn start(task_id: &str, total: usize) -> (r: ImportProgress)
        ensures
            r.task_id@ == task_id@,
            r.total == total,
            r.completed == 0,
            r.failed == 0,
            r.current_file is None,
            r.status@ == "running"@,
    {
        ImportProgress { task_id: owned(task_id), total, completed: 0, failed: 0, current_file: None, status: owned("running") }
    }

    /// Marks the file being processed.
    pub fn begin_file(&mut self, file_name: &str)
        ensures
            final(self).current_file matches Some(f) && f@ == file_name@,
            final(self).task_id == old(self).task_id,
            final(self).total == old(self).total,
            final(self).completed == old(self).completed,
            final(self).failed == old(self).failed,
            final(self).status == old(self).status,
    {
        self.current_file = Some(owned(file_name));
    }

    /// Counts the outcome of one file: completed or failed.
    pub fn record(&mut self, ok: bool)
        requires
            old(self).completed + old(self).failed < old(self).total,
        ensures
            ok ==> final(self).completed == old(self).completed + 1 && final(self).failed == old(self).failed,
            !ok ==> final(self).failed == old(self).failed + 1 && final(self).completed == old(self).completed,
            final(self).completed + final(self).failed <= final(self).total,
            final(self).task_id == old(self).task_id,
            final(self).total == old(self).total,
            final(self).current_file == old(self).current_file,
            final(self).status == old(self).status,
    {
        if ok {
            self.completed = self.completed + 1;
        } else {
            self.failed = self.failed + 1;
        }
    }

    /// Closes the task: `cancelled` or `completed`, no current file.
    pub fn finish(&mut self, cancelled: bool)
        ensures
            final(self).status@ == (if cancelled {
                "cancelled"@
            } else {
                "completed"@
            }),
            final(self).current_file is None,
            final(self).task_id == old(self).task_id,
            final(self).total == old(self).total,
            final(self).completed == old(self).completed,
            final(self).failed == old(self).failed,
    {
        self.status = if cancelled {
            owned("cancelled")
        } else {
            owned("completed")
        };
        self.current_file = None;
    }
}

/// A knowledge base.
#[derive(Debug, Clone)]
pub struct KnowledgeBase {
    pub id: String,
    pub name: String,
    pub description: Option<String>,
    pub storage_path: String,
    pub split_strategy: String,
    pub split_config: String,
    pub created_at: String,
    pub updated_at: String,
}

/// A request to create a knowledge base.
#[derive(Debug, Clone)]
pub struct CreateKnowledgeBaseRequest {
    pub name: String,
    pub description: Option<String>,
    pub storage_path: Option<String>,
    /// The splitting strategy's name.
    pub split_strategy: String,
    /// The splitting parameters, as JSON.
    pub split_config: String,
}

/// The strategy of a new knowledge base when none is given.
pub fn default_split_strategy() -> (r: String)
    ensures
        r@ == "fixed_size"@,
{
    owned("fixed_size")
}

/// The splitting parameters of a new knowledge base when none are given.
pub fn default_split_config() -> (r: String)
    ensures
        r@ == "{\"chunk_size\":512,\"overlap\":50}"@,
{
    owned("{\"chunk_size\":512,\"overlap\":50}")
}

/// The record of a new knowledge base: the request's fields, the given id,
/// the requested storage path or else `default_storage`, created and updated
/// at `now`.
pub fn new_knowledge_base(id: &str, req: CreateKnowledgeBaseRequest, default_storage: &str, now: &str) -> (r: KnowledgeBase)
    ensures
        r.id@ == id@,
        r.name == req.name,
        r.description == req.description,
        r.storage_path@ == (match req.storage_path {
            Some(p) => p@,
            None => default_storage@,
        }),
        r.split_strategy == req.split_strategy,
        r.split_config == req.split_config,
        r.created_at@ == now@,
        r.updated_at@ == now@,
{
    let storage_path = match req.storage_path {
        Some(p) => p,
        None => owned(default_storage),
    };
    KnowledgeBase {
        id: owned(id),
        name: req.name,
        description: req.description,
        storage_path,
        split_strategy: req.split_strategy,
        split_config: req.split_config,
        created_at: owned(now),
        updated_at: owned(now),
    }
}

/// A new name for a knowledge base, trimmed; a blank one is refused.
pub fn validate_kb_name(new_name: &str) -> (r: Result<String, AppError>)
    ensures
        trim(new_name@).len() > 0 ==> (r matches Ok(n) && n@ == trim(new_name@)),
        trim(new_name@).len() == 0 ==> (r matches Err(AppError::Other(m)) && m@ == "知识库名称不能为空"@),
{
    let c = chars_of(new_name);
    let t = trimmed(&c);
    if t.len() == 0 {
        Err(AppError::Other(owned("知识库名称不能为空")))
    } else {
        Ok(string_of(&t))
    }
}

/// What the application reports about the model service at start.
/// A saved conversation about a knowledge base.
#[derive(Debug, Clone)]
pub struct Conversation {
    pub id: String,
    pub knowledge_base_id: String,
    pub title: String,
    pub created_at: String,
    pub updated_at: String,
}

/// A message of a saved conversation; `references` holds the cited chunks
/// as JSON.
#[derive(Debug, Clone)]
pub struct Message {
    pub id: String,
    pub conversation_id: String,
    pub role: String,
    pub content: String,
    pub references: Option<String>,
    pub created_at: String,
}

#[derive(Debug, Clone, Copy)]
pub struct SystemInfo {
    pub ollama_installed: bool,
    pub ollama_running: bool,
    pub default_models_available: bool,
}

} // verus!
