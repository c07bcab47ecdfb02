//! Importing documents: which files are taken, how large they may be, and
//! the content hash that finds duplicates.
use vstd::prelude::*;
use crate::error::AppError;
use crate::models::DocumentStatus;
use crate::text::{append_chars, ascii_lowercase, chars_of, is_ascii_text, lowercase, owned, str_eq, string_of, to_lowercase_chars};

verus! {

/// The largest file that is imported: 100 MiB.
pub const MAX_FILE_SIZE: u64 = 104857600;

/// A file of `size` bytes may be imported; a larger one is refused.
pub fn check_file_size(size: u64) -> (r: Result<(), AppError>)
    ensures
        size <= MAX_FILE_SIZE ==> r is Ok,
        size > MAX_FILE_SIZE ==> r == Err::<(), AppError>(AppError::FileTooLarge { size, limit: MAX_FILE_SIZE }),
{
    if size > MAX_FILE_SIZE {
        Err(AppError::FileTooLarge { size, limit: MAX_FILE_SIZE })
    } else {
        Ok(())
    }
}

/// The extensions of the files found in folders that are imported.
pub open spec fn supported_extensions() -> Seq<Seq<char>> {
    seq!["pdf"@, "docx"@, "txt"@, "md"@, "markdown"@]
}

/// Whether a file found in a folder is imported: its lower-cased extension is supported.
pub fn is_supported_extension(ext: &str) -> (r: bool)
    ensures
        r == supported_extensions().contains(lowercase(ext@)),
        is_ascii_text(ext@) ==> r == supported_extensions().contains(ascii_lowercase(ext@)),
{
    let lower = string_of(&to_lowercase_chars(&chars_of(ext)));
    let r = str_eq(lower.as_str(), "pdf") || str_eq(lower.as_str(), "docx") || str_eq(lower.as_str(), "txt") || str_eq(
        lower.as_str(),
        "md",
    ) || str_eq(lower.as_str(), "markdown");
    proof {
        let l = lowercase(ext@);
        let s = supported_extensions();
        if r {
            if l == "pdf"@ {
                assert(s[0] == l);
            } else if l == "docx"@ {
                assert(s[1] == l);
            } else if l == "txt"@ {
                assert(s[2] == l);
            } else if l == "md"@ {
                assert(s[3] == l);
            } else {
                assert(s[4] == l);
            }
        }
    }
    r
}

/// The name a document is stored under: its file name, or `unknown`.
pub fn file_name_or_unknown(name: Option<&str>) -> (r: String)
    ensures
        r@ == (match name {
            Some(n) => n@,
            None => "unknown"@,
        }),
{
    match name {
        Some(n) => owned(n),
        None => owned("unknown"),
    }
}

/// The import of an empty list of files is refused.
pub fn check_files_found(total: usize) -> (r: Result<(), AppError>)
    ensures
        total > 0 ==> r is Ok,
        total == 0 ==> (r matches Err(AppError::Other(m)) && m@ == "未找到可导入的文档(支持 PDF/DOCX/TXT/MD)"@),
{
    if total == 0 {
        Err(AppError::Other(owned("未找到可导入的文档(支持 PDF/DOCX/TXT/MD)")))
    } else {
        Ok(())
    }
}

/// The note stored on a document whose vectors could not be built.
pub fn vectorize_failure_note(error: &str) -> (r: String)
    ensures
        r@ == "向量化失败: "@ + error@,
{
    let mut v = chars_of("向量化失败: ");
    append_chars(&mut v, &chars_of(error));
    string_of(&v)
}

/// What happened to a document whose row was recorded as `parsing`.
pub enum DocOutcome {
    /// Its text was extracted.
    Parsed,
    /// Its text could not be extracted, with the error's message.
    ParseFailed(String),
    /// Its chunks were embedded and stored.
    Vectorized,
    /// Its chunks could not be embedded, with the error's message.
    VectorizeFailed(String),
}

/// A status to record on a document, with an error message or note.
pub struct StatusUpdate {
    pub status: DocumentStatus,
    pub note: Option<String>,
}

/// What to do after an outcome: the status updates, in order, and whether
/// the document is to be vectorized next.
pub struct DocStep {
    pub updates: Vec<StatusUpdate>,
    pub vectorize: bool,
}

/// The view of a status update.
pub open spec fn update_view(u: StatusUpdate) -> (DocumentStatus, Option<Seq<char>>) {
    (u.status, match u.note {
        Some(n) => Some(n@),
        None => None,
    })
}

/// The status updates after an outcome, and whether vectorizing follows:
/// a parsed document becomes `parsed`, then `vectorizing` when the model
/// service is ready (and is then vectorized); a document that failed to
/// parse becomes `failed` with the message; a vectorized one needs no update;
/// one whose vectorizing failed goes back to `parsed` with a note, so that
/// it can be retried.
pub open spec fn doc_step(o: DocOutcome, service_ready: bool) -> (Seq<(DocumentStatus, Option<Seq<char>>)>, bool) {
    match o {
        DocOutcome::Parsed => if service_ready {
            (seq![(DocumentStatus::Parsed, None), (DocumentStatus::Vectorizing, None)], true)
        } else {
            (seq![(DocumentStatus::Parsed, None)], false)
        },
        DocOutcome::ParseFailed(m) => (seq![(DocumentStatus::Failed, Some(m@))], false),
        DocOutcome::Vectorized => (Seq::empty(), false),
        DocOutcome::VectorizeFailed(m) => (seq![(DocumentStatus::Parsed, Some("向量化失败: "@ + m@))], false),
    }
}

/// The next step in processing a document (`doc_step`).
pub fn document_step(outcome: DocOutcome, service_ready: bool) -> (r: DocStep)
    ensures
        r.updates@.map_values(|u: StatusUpdate| update_view(u)) == doc_step(outcome, service_ready).0,
        r.vectorize == doc_step(outcome, service_ready).1,
{
    let ghost o = outcome;
    let mut updates: Vec<StatusUpdate> = Vec::new();
    let mut vectorize = false;
    match outcome {
        DocOutcome::Parsed => {
            updates.push(StatusUpdate { status: DocumentStatus::Parsed, note: None });
            if service_ready {
                updates.push(StatusUpdate { status: DocumentStatus::Vectorizing, note: None });
                vectorize = true;
            }
        },
        DocOutcome::ParseFailed(m) => {
            updates.push(StatusUpdate { status: DocumentStatus::Failed, note: Some(m) });
        },
        DocOutcome::Vectorized => {},
        DocOutcome::VectorizeFailed(m) => {
            let note = vectorize_failure_note(m.as_str());
            updates.push(StatusUpdate { status: DocumentStatus::Parsed, note: Some(note) });
        },
    }
    assert(updates@.map_values(|u: StatusUpdate| update_view(u)) =~= doc_step(o, service_ready).0);
    DocStep { updates, vectorize }
}

/// The SHA-256 digest of some bytes, as `sha2::Sha256` computes it.
pub uninterp spec fn sha256(data: Seq<u8>) -> Seq<u8>;

/// `sha2::Sha256::digest`: the digest named `sha256`, 32 bytes long.
#[verifier::external_body]
fn sha256_digest(data: &[u8]) -> (r: Vec<u8>)
    ensures
        r@ == sha256(data@),
        r@.len() == 32,
{
    <sha2::Sha256 as sha2::Digest>::digest(data).to_vec()
}

/// The lower-case hexadecimal digit of `d` (below 16).
pub open spec fn hex_digit(d: int) -> char {
    if d < 10 {
        (('0' as int) + d) as char
    } else {
        (('a' as int) + d - 10) as char
    }
}

/// Two lower-case hexadecimal digits per byte, the high one first.
pub open spec fn hex_lower(bytes: Seq<u8>) -> Seq<char>
    decreases bytes.len(),
{
    if bytes.len() == 0 {
        Seq::empty()
    } else {
        hex_lower(bytes.drop_last()) + seq![hex_digit(bytes.last() as int / 16), hex_digit(bytes.last() as int % 16)]
    }
}

fn hex_char(d: u8) -> (c: char)
    requires
        d < 16,
    ensures
        c == hex_digit(d as int),
{
    let table: [char; 16] = ['0', '1', '2', '3', '4', '5', '6', '7', '8', '9', 'a', 'b', 'c', 'd', 'e', 'f'];
    let c = table[d as usize];
    proof {
        assert(table@[d as int] == c);
    }
    assert(c == hex_digit(d as int)) by {
        if d == 0 { assert(table@[0] == '0'); }
        if d == 1 { assert(table@[1] == '1'); }
        if d == 2 { assert(table@[2] == '2'); }
        if d == 3 { assert(table@[3] == '3'); }
        if d == 4 { assert(table@[4] == '4'); }
        if d == 5 { assert(table@[5] == '5'); }
        if d == 6 { assert(table@[6] == '6'); }
        if d == 7 { assert(table@[7] == '7'); }
        if d == 8 { assert(table@[8] == '8'); }
        if d == 9 { assert(table@[9] == '9'); }
        if d == 10 { assert(table@[10] == 'a'); }
        if d == 11 { assert(table@[11] == 'b'); }
        if d == 12 { assert(table@[12] == 'c'); }
        if d == 13 { assert(table@[13] == 'd'); }
        if d == 14 { assert(table@[14] == 'e'); }
        if d == 15 { assert(table@[15] == 'f'); }
    }
    c
}

/// The bytes in lower-case hexadecimal (`hex_lower`).
pub fn to_hex_lower(bytes: &[u8]) -> (r: String)
    ensures
        r@ == hex_lower(bytes@),
{
    let mut v: Vec<char> = Vec::new();
    let mut i: usize = 0;
    while i < bytes.len()
        invariant
            i <= bytes@.len(),
            v@ == hex_lower(bytes@.take(i as int)),
        decreases bytes.len() - i,
    {
        let b = bytes[i];
        let ghost before = v@;
        v.push(hex_char(b / 16));
        v.push(hex_char(b % 16));
        proof {
            assert(bytes@.take(i + 1).drop_last() =~= bytes@.take(i as int));
            assert(bytes@.take(i + 1).last() == b);
            assert(v@ =~= before + seq![hex_digit(b as int / 16), hex_digit(b as int % 16)]);
        }
        i = i + 1;
    }
    assert(bytes@.take(bytes@.len() as int) =~= bytes@);
    string_of(&v)
}

/// The content hash of a document: its SHA-256 digest in lower-case
/// hexadecimal, 64 characters.
pub fn content_hash(data: &[u8]) -> (r: String)
    ensures
        r@ == hex_lower(sha256(data@)),
        r@.len() == 64,
{
    let d = sha256_digest(data);
    proof {
        lemma_hex_len(d@);
    }
    to_hex_lower(d.as_slice())
}

/// Hexadecimal takes two characters per byte.
pub proof fn lemma_hex_len(bytes: Seq<u8>)
    ensures
        hex_lower(bytes).len() == 2 * bytes.len(),
    decreases bytes.len(),
{
    if bytes.len() > 0 {
        lemma_hex_len(bytes.drop_last());
    }
}

} // verus!
