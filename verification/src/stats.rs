//! Disk usage of the application's data and of the model directories.
use vstd::prelude::*;
use crate::text::{chars_of, copy_string, owned, str_eq, string_of};

verus! {

/// The storage of one knowledge base.
#[derive(Debug, Clone)]
pub struct KbStorageStat {
    pub id: String,
    pub name: String,
    pub document_count: i64,
    pub chunk_count: i64,
    pub vector_count: i64,
    /// The original files' sizes, summed.
    pub documents_bytes: i64,
    /// What the knowledge base's directory takes on disk.
    pub dir_bytes: u64,
}

/// The storage of one model directory.
#[derive(Debug, Clone)]
pub struct ModelDirStat {
    pub path: String,
    pub exists: bool,
    pub bytes: u64,
}

/// The application's disk usage.
#[derive(Debug, Clone)]
pub struct StorageStats {
    pub database_bytes: u64,
    pub knowledge_bases_bytes: u64,
    pub logs_bytes: u64,
    /// Database, knowledge bases and logs together (models not counted).
    pub total_bytes: u64,
    pub model_dirs: Vec<ModelDirStat>,
    pub knowledge_bases: Vec<KbStorageStat>,
}

/// The vector count of a knowledge base among the counted rows: the first
/// row with its id, or 0.
pub open spec fn vector_count_of(rows: Seq<(Seq<char>, i64)>, id: Seq<char>) -> i64
    decreases rows.len(),
{
    if rows.len() == 0 {
        0
    } else if rows[0].0 == id {
        rows[0].1
    } else {
        vector_count_of(rows.drop_first(), id)
    }
}

/// The views of counted rows.
pub open spec fn count_rows_view(v: Seq<(String, i64)>) -> Seq<(Seq<char>, i64)> {
    v.map_values(|p: (String, i64)| (p.0@, p.1))
}

/// The vector count of a knowledge base (`vector_count_of`).
pub fn find_vector_count(rows: &Vec<(String, i64)>, id: &str) -> (r: i64)
    ensures
        r == vector_count_of(count_rows_view(rows@), id@),
{
    let ghost rv = count_rows_view(rows@);
    let mut k: usize = 0;
    assert(rv.skip(0) =~= rv);
    while k < rows.len()
        invariant
            rv == count_rows_view(rows@),
            k <= rv.len(),
            vector_count_of(rv.skip(k as int), id@) == vector_count_of(rv, id@),
        decreases rows.len() - k,
    {
        proof {
            assert(rv.skip(k as int)[0] == (rows@[k as int].0@, rows@[k as int].1));
            assert(rv.skip(k as int).drop_first() =~= rv.skip(k + 1));
        }
        if str_eq(rows[k].0.as_str(), id) {
            return rows[k].1;
        }
        k = k + 1;
    }
    assert(rv.skip(k as int) =~= Seq::<(Seq<char>, i64)>::empty());
    0
}

/// The storage of a knowledge base from its aggregated row, the counted
/// vectors and its directory's size.
pub fn kb_storage_stat(
    id: String,
    name: String,
    document_count: i64,
    chunk_count: i64,
    documents_bytes: i64,
    vector_rows: &Vec<(String, i64)>,
    dir_bytes: u64,
) -> (r: KbStorageStat)
    ensures
        r.id == id,
        r.name == name,
        r.document_count == document_count,
        r.chunk_count == chunk_count,
        r.vector_count == vector_count_of(count_rows_view(vector_rows@), id@),
        r.documents_bytes == documents_bytes,
        r.dir_bytes == dir_bytes,
{
    let vector_count = find_vector_count(vector_rows, id.as_str());
    KbStorageStat { id, name, document_count, chunk_count, vector_count, documents_bytes, dir_bytes }
}

/// The database file and its companions: the write-ahead log and the shared memory file.
pub fn database_files(db_path: &str) -> (r: Vec<String>)
    ensures
        r@.len() == 3,
        r@[0]@ == db_path@,
        r@[1]@ == db_path@ + "-wal"@,
        r@[2]@ == db_path@ + "-shm"@,
{
    let mut v: Vec<String> = Vec::new();
    v.push(owned(db_path));
    let mut w = chars_of(db_path);
    crate::text::append_chars(&mut w, &chars_of("-wal"));
    v.push(string_of(&w));
    let mut s = chars_of(db_path);
    crate::text::append_chars(&mut s, &chars_of("-shm"));
    v.push(string_of(&s));
    v
}

/// The database's size: the file and its two companions.
pub fn database_size(main: u64, wal: u64, shm: u64) -> (r: u64)
    requires
        main + wal + shm <= u64::MAX,
    ensures
        r == main + wal + shm,
{
    main + wal + shm
}

/// The application's disk usage from its parts.
pub fn storage_stats(
    database_bytes: u64,
    knowledge_bases_bytes: u64,
    logs_bytes: u64,
    model_dirs: Vec<ModelDirStat>,
    knowledge_bases: Vec<KbStorageStat>,
) -> (r: StorageStats)
    requires
        database_bytes + knowledge_bases_bytes + logs_bytes <= u64::MAX,
    ensures
        r.database_bytes == database_bytes,
        r.knowledge_bases_bytes == knowledge_bases_bytes,
        r.logs_bytes == logs_bytes,
        r.total_bytes == database_bytes + knowledge_bases_bytes + logs_bytes,
        r.model_dirs == model_dirs,
        r.knowledge_bases == knowledge_bases,
{
    StorageStats {
        database_bytes,
        knowledge_bases_bytes,
        logs_bytes,
        total_bytes: database_bytes + knowledge_bases_bytes + logs_bytes,
        model_dirs,
        knowledge_bases,
    }
}

/// A model directory's usage: its size when it exists, else nothing.
pub fn model_dir_stat(path: String, exists: bool, size_if_exists: u64) -> (r: ModelDirStat)
    ensures
        r.path == path,
        r.exists == exists,
        r.bytes == (if exists { size_if_exists } else { 0 }),
{
    ModelDirStat { path, exists, bytes: if exists { size_if_exists } else { 0 } }
}

} // verus!
