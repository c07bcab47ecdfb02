//! Document formats: telling them apart, decoding plain text, and the text
//! of a Word document.
use vstd::prelude::*;
use crate::error::AppError;
use crate::text::{append_chars, ascii_lowercase, chars_of, is_ascii_text, lowercase, owned, str_eq, string_of, to_lowercase_chars};

verus! {

/// The formats that can be imported.
#[derive(Debug, Clone, Copy, PartialEq, Eq, Structural)]
pub enum FileFormat {
    Pdf,
    Docx,
    Txt,
    Md,
}

/// The name of a format.
pub open spec fn format_name(f: FileFormat) -> Seq<char> {
    match f {
        FileFormat::Pdf => "pdf"@,
        FileFormat::Docx => "docx"@,
        FileFormat::Txt => "txt"@,
        FileFormat::Md => "md"@,
    }
}

impl FileFormat {
    /// The name of the format (`format_name`).
    pub fn as_str(&self) -> (r: &'static str)
        ensures
            r@ == format_name(*self),
    {
        match self {
            FileFormat::Pdf => "pdf",
            FileFormat::Docx => "docx",
            FileFormat::Txt => "txt",
            FileFormat::Md => "md",
        }
    }
}

/// Law: a format's name is ASCII, already lower case, names that format
/// (so no two formats share a name), and so does any spelling of it that
/// differs in ASCII case only.
pub proof fn lemma_format_name_read_back(f: FileFormat, ext: Seq<char>)
    requires
        is_ascii_text(ext),
        ascii_lowercase(ext) == format_name(f),
    ensures
        is_ascii_text(format_name(f)),
        ascii_lowercase(format_name(f)) == format_name(f),
        format_of_extension(format_name(f)) == Some(f),
        format_of_extension(ascii_lowercase(ext)) == Some(f),
{
    reveal_strlit("pdf");
    reveal_strlit("docx");
    reveal_strlit("txt");
    reveal_strlit("md");
    reveal_strlit("markdown");
    let n = format_name(f);
    assert(ascii_lowercase(n) =~= n);
    assert("docx"@.len() == 4);
    assert("pdf"@.len() == 3);
    assert("txt"@.len() == 3);
    assert("md"@.len() == 2);
    assert("pdf"@ != "docx"@);
    assert("pdf"@ != "txt"@) by {
        assert("pdf"@[0] != "txt"@[0]);
    }
    assert("pdf"@ != "md"@);
    assert("docx"@ != "txt"@);
    assert("docx"@ != "md"@);
    assert("txt"@ != "md"@);
}

/// The format a lower-cased extension names.
pub open spec fn format_of_extension(ext: Seq<char>) -> Option<FileFormat> {
    if ext == "pdf"@ {
        Some(FileFormat::Pdf)
    } else if ext == "docx"@ {
        Some(FileFormat::Docx)
    } else if ext == "txt"@ {
        Some(FileFormat::Txt)
    } else if ext == "md"@ || ext == "markdown"@ {
        Some(FileFormat::Md)
    } else {
        None
    }
}

/// The format a file's extension names, case aside (`format_of_extension`).
pub fn format_from_extension(ext: &str) -> (r: Option<FileFormat>)
    ensures
        r == format_of_extension(lowercase(ext@)),
        is_ascii_text(ext@) ==> r == format_of_extension(ascii_lowercase(ext@)),
{
    let l = string_of(&to_lowercase_chars(&chars_of(ext)));
    let e = l.as_str();
    if str_eq(e, "pdf") {
        Some(FileFormat::Pdf)
    } else if str_eq(e, "docx") {
        Some(FileFormat::Docx)
    } else if str_eq(e, "txt") {
        Some(FileFormat::Txt)
    } else if str_eq(e, "md") || str_eq(e, "markdown") {
        Some(FileFormat::Md)
    } else {
        None
    }
}

/// The first bytes of a PDF file.
pub open spec fn pdf_magic() -> Seq<u8> {
    seq![0x25u8, 0x50u8, 0x44u8, 0x46u8]
}

/// The first bytes of a ZIP archive, and so of a Word document.
pub open spec fn zip_magic() -> Seq<u8> {
    seq![0x50u8, 0x4bu8]
}

/// The file's first bytes are `magic` (the file has at least as many).
pub open spec fn starts_with_bytes(header: Seq<u8>, magic: Seq<u8>) -> bool {
    header.len() >= magic.len() && header.take(magic.len() as int) == magic
}

fn header_starts_with(header: &[u8], magic: &[u8]) -> (r: bool)
    ensures
        r == starts_with_bytes(header@, magic@),
{
    if header.len() < magic.len() {
        return false;
    }
    let mut i: usize = 0;
    while i < magic.len()
        invariant
            magic@.len() <= header@.len(),
            i <= magic@.len(),
            forall|j: int| 0 <= j < i ==> header@[j] == magic@[j],
        decreases magic.len() - i,
    {
        if header[i] != magic[i] {
            assert(header@.take(magic@.len() as int)[i as int] != magic@[i as int]);
            return false;
        }
        i = i + 1;
    }
    assert(header@.take(magic@.len() as int) =~= magic@);
    true
}

/// The format of a file: by its extension, where a PDF or Word extension must
/// be borne out by the file's first bytes; otherwise a PDF by its first
/// bytes, or plain text when the content reads as UTF-8; otherwise refused.
pub open spec fn detected_format(
    ext: Seq<char>,
    name_shown: Seq<char>,
    header: Seq<u8>,
    content_is_utf8: Option<bool>,
) -> Result<FileFormat, FormatRefusal> {
    let e = lowercase(ext);
    match format_of_extension(e) {
        Some(f) => if (f == FileFormat::Pdf && !starts_with_bytes(header, pdf_magic())) || (f == FileFormat::Docx
            && !starts_with_bytes(header, zip_magic())) {
            Err(FormatRefusal::Mismatch("文件 "@ + name_shown + " 的实际格式与扩展名不符"@))
        } else {
            Ok(f)
        },
        None => if starts_with_bytes(header, pdf_magic()) {
            Ok(FileFormat::Pdf)
        } else if content_is_utf8 == Some(true) {
            Ok(FileFormat::Txt)
        } else {
            Err(FormatRefusal::Unsupported(e))
        },
    }
}

/// Why a file's format is refused: its content does not match its
/// extension (the message), or the format is unknown (the lower-cased extension).
pub enum FormatRefusal {
    Mismatch(Seq<char>),
    Unsupported(Seq<char>),
}

/// Tells a file's format (`detected_format`) from its extension, the name
/// shown in messages, its first bytes (at most 4; fewer when the file is
/// shorter or unreadable) and, for files that need it, whether its content
/// is UTF-8 (`None` when it could not be read).
pub fn detect_format(ext: &str, name_shown: &str, header: &[u8], content_is_utf8: Option<bool>) -> (r: Result<FileFormat, AppError>)
    ensures
        match detected_format(ext@, name_shown@, header@, content_is_utf8) {
            Ok(f) => r matches Ok(a) && a == f,
            Err(FormatRefusal::Mismatch(m)) => r matches Err(AppError::Parsing(x)) && x@ == m,
            Err(FormatRefusal::Unsupported(e)) => r matches Err(AppError::UnsupportedFormat(x)) && x@ == e,
        },
{
    let pdf: [u8; 4] = [0x25u8, 0x50u8, 0x44u8, 0x46u8];
    let zip: [u8; 2] = [0x50u8, 0x4bu8];
    assert(pdf@ =~= pdf_magic());
    assert(zip@ =~= zip_magic());
    match format_from_extension(ext) {
        Some(f) => {
            let bad = match f {
                FileFormat::Pdf => !header_starts_with(header, &pdf),
                FileFormat::Docx => !header_starts_with(header, &zip),
                _ => false,
            };
            if bad {
                let mut m = chars_of("文件 ");
                append_chars(&mut m, &chars_of(name_shown));
                append_chars(&mut m, &chars_of(" 的实际格式与扩展名不符"));
                Err(AppError::Parsing(string_of(&m)))
            } else {
                Ok(f)
            }
        },
        None => {
            if header_starts_with(header, &pdf) {
                Ok(FileFormat::Pdf)
            } else if content_is_utf8 == Some(true) {
                Ok(FileFormat::Txt)
            } else {
                let l = string_of(&to_lowercase_chars(&chars_of(ext)));
                Err(AppError::UnsupportedFormat(l))
            }
        },
    }
}

/// The text `String::from_utf8` reads from bytes, or `None` where they are
/// not UTF-8.
pub uninterp spec fn utf8_decoded(bytes: Seq<u8>) -> Option<Seq<char>>;

/// `String::from_utf8` on a copy of the bytes, its error dropped.
#[verifier::external_body]
fn decode_utf8(bytes: &[u8]) -> (r: Option<String>)
    ensures
        match r {
            Some(s) => utf8_decoded(bytes@) == Some(s@),
            None => utf8_decoded(bytes@) is None,
        },
{
    String::from_utf8(bytes.to_vec()).ok()
}

/// What `encoding_rs::GB18030.decode` gives for bytes: the text and whether
/// malformed sequences were replaced.
pub uninterp spec fn gb18030_decoded(bytes: Seq<u8>) -> (Seq<char>, bool);

/// `encoding_rs::GB18030.decode`: the text and whether there were errors.
#[verifier::external_body]
fn decode_gb18030(bytes: &[u8]) -> (r: (String, bool))
    ensures
        (r.0@, r.1) == gb18030_decoded(bytes@),
{
    let (text, _, had_errors) = encoding_rs::GB18030.decode(bytes);
    (text.into_owned(), had_errors)
}

/// Whether a file's content reads as UTF-8.
pub fn content_is_utf8(bytes: &[u8]) -> (r: bool)
    ensures
        r == (utf8_decoded(bytes@) is Some),
{
    decode_utf8(bytes).is_some()
}

/// The text of a plain-text file: UTF-8 when it reads so, otherwise GB18030
/// (which covers GBK and GB2312) when that reads without errors; otherwise
/// the encoding is not recognised.
pub fn decode_text(bytes: &[u8]) -> (r: Result<String, AppError>)
    ensures
        match utf8_decoded(bytes@) {
            Some(t) => r matches Ok(s) && s@ == t,
            None => if gb18030_decoded(bytes@).1 {
                r matches Err(AppError::Parsing(m)) && m@ == "文件编码无法识别(非 UTF-8/GBK)"@
            } else {
                r matches Ok(s) && s@ == gb18030_decoded(bytes@).0
            },
        },
{
    match decode_utf8(bytes) {
        Some(s) => Ok(s),
        None => {
            let (text, had_errors) = decode_gb18030(bytes);
            if had_errors {
                Err(AppError::Parsing(owned("文件编码无法识别(非 UTF-8/GBK)")))
            } else {
                Ok(text)
            }
        },
    }
}

/// The error of a failed PDF extraction.
pub fn pdf_failure(message: &str) -> (r: AppError)
    ensures
        r matches AppError::Parsing(m) && m@ == "PDF 解析失败: "@ + message@,
{
    let mut m = chars_of("PDF 解析失败: ");
    append_chars(&mut m, &chars_of(message));
    AppError::Parsing(string_of(&m))
}

/// The error of a Word document that could not be read.
pub fn docx_read_failure(message: &str) -> (r: AppError)
    ensures
        r matches AppError::Parsing(m) && m@ == "读取 DOCX 文件失败: "@ + message@,
{
    let mut m = chars_of("读取 DOCX 文件失败: ");
    append_chars(&mut m, &chars_of(message));
    AppError::Parsing(string_of(&m))
}

/// The error of a Word document that could not be parsed.
pub fn docx_parse_failure(message: &str) -> (r: AppError)
    ensures
        r matches AppError::Parsing(m) && m@ == "DOCX 解析失败: "@ + message@,
{
    let mut m = chars_of("DOCX 解析失败: ");
    append_chars(&mut m, &chars_of(message));
    AppError::Parsing(string_of(&m))
}

/// A piece of a run of a Word document: text, or anything else.
#[derive(Debug, Clone)]
pub enum RunPiece {
    Text(String),
    Other,
}

/// A piece of a paragraph: a run, a hyperlink (its children that are runs,
/// `None` for the others), or anything else.
#[derive(Debug, Clone)]
pub enum ParaPiece {
    Run(Vec<RunPiece>),
    Hyperlink(Vec<Option<Vec<RunPiece>>>),
    Other,
}

/// A child of a Word document's body: a paragraph, or anything else.
#[derive(Debug, Clone)]
pub enum DocChild {
    Paragraph(Vec<ParaPiece>),
    Other,
}

/// The texts of a run, one after the other.
pub open spec fn run_text(rs: Seq<RunPiece>) -> Seq<char>
    decreases rs.len(),
{
    if rs.len() == 0 {
        Seq::empty()
    } else {
        run_text(rs.drop_last()) + match rs.last() {
            RunPiece::Text(t) => t@,
            RunPiece::Other => Seq::empty(),
        }
    }
}

/// The texts of a hyperlink's runs.
pub open spec fn link_text(hs: Seq<Option<Vec<RunPiece>>>) -> Seq<char>
    decreases hs.len(),
{
    if hs.len() == 0 {
        Seq::empty()
    } else {
        link_text(hs.drop_last()) + match hs.last() {
            Some(r) => run_text(r@),
            None => Seq::empty(),
        }
    }
}

/// The text of a paragraph: its runs' texts and its hyperlinks' runs' texts.
pub open spec fn para_text(ps: Seq<ParaPiece>) -> Seq<char>
    decreases ps.len(),
{
    if ps.len() == 0 {
        Seq::empty()
    } else {
        para_text(ps.drop_last()) + match ps.last() {
            ParaPiece::Run(r) => run_text(r@),
            ParaPiece::Hyperlink(h) => link_text(h@),
            ParaPiece::Other => Seq::empty(),
        }
    }
}

/// The text of a Word document: each paragraph's text and a line feed.
pub open spec fn docx_text(cs: Seq<DocChild>) -> Seq<char>
    decreases cs.len(),
{
    if cs.len() == 0 {
        Seq::empty()
    } else {
        docx_text(cs.drop_last()) + match cs.last() {
            DocChild::Paragraph(p) => para_text(p@) + seq!['\n'],
            DocChild::Other => Seq::empty(),
        }
    }
}

fn push_run(out: &mut Vec<char>, rs: &Vec<RunPiece>)
    ensures
        final(out)@ == old(out)@ + run_text(rs@),
{
    let ghost o0 = out@;
    let mut k: usize = 0;
    while k < rs.len()
        invariant
            k <= rs@.len(),
            out@ == o0 + run_text(rs@.take(k as int)),
        decreases rs.len() - k,
    {
        let ghost before = out@;
        match &rs[k] {
            RunPiece::Text(t) => append_chars(out, &chars_of(t.as_str())),
            RunPiece::Other => {},
        }
        proof {
            assert(rs@.take(k + 1).drop_last() =~= rs@.take(k as int));
            assert(rs@.take(k + 1).last() == rs@[k as int]);
            assert(out@ =~= o0 + run_text(rs@.take(k + 1)));
        }
        k = k + 1;
    }
    assert(rs@.take(rs@.len() as int) =~= rs@);
}

fn push_para(out: &mut Vec<char>, ps: &Vec<ParaPiece>)
    ensures
        final(out)@ == old(out)@ + para_text(ps@),
{
    let ghost o0 = out@;
    let mut k: usize = 0;
    while k < ps.len()
        invariant
            k <= ps@.len(),
            out@ == o0 + para_text(ps@.take(k as int)),
        decreases ps.len() - k,
    {
        let ghost before = out@;
        match &ps[k] {
            ParaPiece::Run(r) => push_run(out, r),
            ParaPiece::Hyperlink(h) => {
                let ghost h0 = out@;
                let mut j: usize = 0;
                while j < h.len()
                    invariant
                        j <= h@.len(),
                        out@ == h0 + link_text(h@.take(j as int)),
                    decreases h.len() - j,
                {
                    let ghost b = out@;
                    match &h[j] {
                        Some(r) => push_run(out, r),
                        None => {},
                    }
                    proof {
                        assert(h@.take(j + 1).drop_last() =~= h@.take(j as int));
                        assert(h@.take(j + 1).last() == h@[j as int]);
                        assert(out@ =~= h0 + link_text(h@.take(j + 1)));
                    }
                    j = j + 1;
                }
                assert(h@.take(h@.len() as int) =~= h@);
            },
            ParaPiece::Other => {},
        }
        proof {
            assert(ps@.take(k + 1).drop_last() =~= ps@.take(k as int));
            assert(ps@.take(k + 1).last() == ps@[k as int]);
            assert(out@ =~= o0 + para_text(ps@.take(k + 1)));
        }
        k = k + 1;
    }
    assert(ps@.take(ps@.len() as int) =~= ps@);
}

/// The text of a Word document's body (`docx_text`).
pub fn docx_plain_text(children: &Vec<DocChild>) -> (r: String)
    ensures
        r@ == docx_text(children@),
{
    let mut out: Vec<char> = Vec::new();
    let mut k: usize = 0;
    while k < children.len()
        invariant
            k <= children@.len(),
            out@ == docx_text(children@.take(k as int)),
        decreases children.len() - k,
    {
        let ghost before = out@;
        match &children[k] {
            DocChild::Paragraph(p) => {
                push_para(&mut out, p);
                out.push('\n');
            },
            DocChild::Other => {},
        }
        proof {
            assert(children@.take(k + 1).drop_last() =~= children@.take(k as int));
            assert(children@.take(k + 1).last() == children@[k as int]);
            assert(out@ =~= docx_text(children@.take(k + 1)));
        }
        k = k + 1;
    }
    assert(children@.take(children@.len() as int) =~= children@);
    string_of(&out)
}

} // verus!
