//! Question answering over a knowledge base: the prompts built from the
//! retrieved chunks and the conversation, and how chunks are stored.
use vstd::prelude::*;
use crate::numfmt::{decimal, usize_to_decimal};
use crate::text::{append_chars, chars_of, owned, str_eq, string_of};
use crate::chunking::chunk::{ChunkMetadata, MetaSpec};
use crate::models::{Conversation, Message};
use crate::chunking::recursive::strings_view;

verus! {

/// A message of the conversation so far.
#[derive(Debug, Clone)]
pub struct HistoryMessage {
    /// `user` for the user; anything else is the assistant.
    pub role: String,
    pub content: String,
}

/// A conversation to save with all its messages (they replace the stored
/// ones).
#[derive(Debug, Clone)]
pub struct SaveConversationRequest {
    pub conversation: Conversation,
    pub messages: Vec<Message>,
}

/// One streamed piece of an answer.
#[derive(Debug, Clone)]
pub struct ChatTokenPayload {
    pub token: String,
    /// The query the piece belongs to.
    pub query_id: Option<String>,
}

/// The default number of chunks retrieved.
pub fn default_top_k() -> (r: usize)
    ensures
        r == 4,
{
    4
}

/// The default bound on generated tokens.
pub fn default_max_tokens() -> (r: i32)
    ensures
        r == 1024,
{
    1024
}

/// The default for options that are on unless turned off.
pub fn default_true() -> (r: bool)
    ensures
        r,
{
    true
}

/// The instructions given to the model before the retrieved chunks.
pub const SYSTEM_PROMPT_PREFIX: &'static str = "你是「智识库」的问答助手。请基于以下检索到的知识片段回答用户问题。如果知识片段中没有相关信息,请明确说明你不知道,不要编造内容。引用片段时请使用 [片段 N] 的格式标注来源。\n\n知识片段:\n";

/// The system prompt: the instructions, then the context.
pub fn build_system_prompt(context: &str) -> (r: String)
    ensures
        r@ == SYSTEM_PROMPT_PREFIX@ + context@,
{
    let mut v = chars_of(SYSTEM_PROMPT_PREFIX);
    append_chars(&mut v, &chars_of(context));
    string_of(&v)
}

/// The block of one retrieved chunk, numbered from 1.
pub open spec fn context_block(i: int, content: Seq<char>) -> Seq<char> {
    "[片段 "@ + decimal((i + 1) as nat) + "]\n"@ + content
}

/// The blocks of the first `n` chunks, separated by a rule.
pub open spec fn context_of(contents: Seq<Seq<char>>, n: int) -> Seq<char>
    decreases n,
{
    if n <= 0 {
        Seq::empty()
    } else if n == 1 {
        context_block(0, contents[0])
    } else {
        context_of(contents, n - 1) + "\n\n---\n\n"@ + context_block(n - 1, contents[n - 1])
    }
}

/// The context for the model: each retrieved chunk as `[片段 i]` and its
/// text, separated by `---` rules (`context_of`).
pub fn assemble_context(contents: &Vec<String>) -> (r: String)
    requires
        contents@.len() < usize::MAX,
    ensures
        r@ == context_of(strings_view(contents@), contents@.len() as int),
{
    let ghost cv = strings_view(contents@);
    let mut v: Vec<char> = Vec::new();
    let mut i: usize = 0;
    while i < contents.len()
        invariant
            cv == strings_view(contents@),
            contents@.len() < usize::MAX,
            i <= contents@.len(),
            v@ == context_of(cv, i as int),
        decreases contents.len() - i,
    {
        let ghost before = v@;
        if i > 0 {
            append_chars(&mut v, &chars_of("\n\n---\n\n"));
        }
        append_chars(&mut v, &chars_of("[片段 "));
        append_chars(&mut v, &usize_to_decimal(i + 1));
        append_chars(&mut v, &chars_of("]\n"));
        append_chars(&mut v, &chars_of(contents[i].as_str()));
        proof {
            assert(cv[i as int] == contents@[i as int]@);
            if i > 0 {
                assert(v@ =~= before + "\n\n---\n\n"@ + context_block(i as int, cv[i as int]));
            } else {
                assert(v@ =~= context_block(0, cv[0]));
            }
        }
        i = i + 1;
    }
    string_of(&v)
}

/// The views of history messages.
pub open spec fn history_view(h: Seq<HistoryMessage>) -> Seq<(Seq<char>, Seq<char>)> {
    h.map_values(|m: HistoryMessage| (m.role@, m.content@))
}

/// The line of one history message: `用户` for the user, `助手` otherwise.
pub open spec fn history_line(role: Seq<char>, content: Seq<char>) -> Seq<char> {
    (if role == "user"@ {
        "用户"@
    } else {
        "助手"@
    }) + ": "@ + content + "\n"@
}

/// The lines of the first `n` messages.
pub open spec fn history_lines(h: Seq<(Seq<char>, Seq<char>)>, n: int) -> Seq<char>
    decreases n,
{
    if n <= 0 {
        Seq::empty()
    } else {
        history_lines(h, n - 1) + history_line(h[n - 1].0, h[n - 1].1)
    }
}

/// Where the kept history starts: only the latest six messages are kept.
pub open spec fn history_from(n: int) -> int {
    if n > 6 { n - 6 } else { 0 }
}

/// The user prompt: the question alone without history; otherwise the
/// latest six messages (oldest first), one line each, then the question.
pub open spec fn user_prompt(question: Seq<char>, h: Seq<(Seq<char>, Seq<char>)>, use_history: bool) -> Seq<char> {
    if !use_history || h.len() == 0 {
        question
    } else {
        let k = history_from(h.len() as int);
        history_lines(h.skip(k), h.len() - k) + "\n当前问题: "@ + question
    }
}

/// The user prompt (`user_prompt`).
pub fn build_user_prompt(question: &str, history: &[HistoryMessage], use_history: bool) -> (r: String)
    ensures
        r@ == user_prompt(question@, history_view(history@), use_history),
{
    let ghost hv = history_view(history@);
    if !use_history || history.len() == 0 {
        return owned(question);
    }
    let n = history.len();
    let k = if n > 6 { n - 6 } else { 0 };
    let ghost kept = hv.skip(k as int);
    let mut v: Vec<char> = Vec::new();
    let mut i: usize = k;
    while i < n
        invariant
            hv == history_view(history@),
            n == history@.len(),
            k <= i <= n,
            kept == hv.skip(k as int),
            v@ == history_lines(kept, i - k),
        decreases n - i,
    {
        let m = &history[i];
        let ghost before = v@;
        if str_eq(m.role.as_str(), "user") {
            append_chars(&mut v, &chars_of("用户"));
        } else {
            append_chars(&mut v, &chars_of("助手"));
        }
        append_chars(&mut v, &chars_of(": "));
        append_chars(&mut v, &chars_of(m.content.as_str()));
        append_chars(&mut v, &chars_of("\n"));
        proof {
            assert(hv[i as int] == (m.role@, m.content@));
            assert(kept[i - k] == hv[i as int]);
            assert(v@ =~= before + history_line(m.role@, m.content@));
        }
        i = i + 1;
    }
    append_chars(&mut v, &chars_of("\n当前问题: "));
    append_chars(&mut v, &chars_of(question));
    string_of(&v)
}

/// The batches of `n` items sent for embedding: consecutive runs of
/// `size`, the last possibly shorter.
pub open spec fn batch_bounds_spec(n: int, size: int, from: int) -> Seq<(int, int)>
    decreases n - from,
{
    if from >= n || size < 1 {
        Seq::empty()
    } else {
        let end = if from + size < n { from + size } else { n };
        seq![(from, end)] + batch_bounds_spec(n, size, end)
    }
}

/// The `[start, end)` bounds of the embedding batches (`batch_bounds_spec`).
pub fn batch_bounds(n: usize, size: usize) -> (r: Vec<(usize, usize)>)
    requires
        size >= 1,
    ensures
        r@.map_values(|p: (usize, usize)| (p.0 as int, p.1 as int)) == batch_bounds_spec(n as int, size as int, 0),
{
    let mut out: Vec<(usize, usize)> = Vec::new();
    let mut from: usize = 0;
    proof {
        assert(out@.map_values(|p: (usize, usize)| (p.0 as int, p.1 as int)) + batch_bounds_spec(n as int, size as int, 0)
            =~= batch_bounds_spec(n as int, size as int, 0));
    }
    while from < n
        invariant
            size >= 1,
            from <= n,
            out@.map_values(|p: (usize, usize)| (p.0 as int, p.1 as int)) + batch_bounds_spec(n as int, size as int, from as int)
                == batch_bounds_spec(n as int, size as int, 0),
        decreases n - from,
    {
        let end = if size < n - from { from + size } else { n };
        let ghost before = out@;
        out.push((from, end));
        proof {
            assert(out@.map_values(|p: (usize, usize)| (p.0 as int, p.1 as int)) =~= before.map_values(
                |p: (usize, usize)| (p.0 as int, p.1 as int),
            ).push((from as int, end as int)));
            assert(before.map_values(|p: (usize, usize)| (p.0 as int, p.1 as int)) + batch_bounds_spec(
                n as int,
                size as int,
                from as int,
            ) =~= out@.map_values(|p: (usize, usize)| (p.0 as int, p.1 as int)) + batch_bounds_spec(
                n as int,
                size as int,
                end as int,
            ));
        }
        from = end;
    }
    proof {
        assert(out@.map_values(|p: (usize, usize)| (p.0 as int, p.1 as int)) + batch_bounds_spec(n as int, size as int, from as int)
            =~= out@.map_values(|p: (usize, usize)| (p.0 as int, p.1 as int)));
    }
    out
}

/// A lower-case hexadecimal digit (`d` below 16).
pub open spec fn hex_digit(d: int) -> char {
    if d < 10 {
        (('0' as int) + d) as char
    } else {
        (('a' as int) + d - 10) as char
    }
}

/// How a character is written inside a JSON string: `"` and `\` and the
/// control characters below U+0020 escaped (short forms where JSON has one,
/// `\u00XX` otherwise), every other character as it is.
pub open spec fn json_escape(c: char) -> Seq<char> {
    if c == '"' {
        seq!['\\', '"']
    } else if c == '\\' {
        seq!['\\', '\\']
    } else if c == '\u{8}' {
        seq!['\\', 'b']
    } else if c == '\t' {
        seq!['\\', 't']
    } else if c == '\n' {
        seq!['\\', 'n']
    } else if c == '\u{c}' {
        seq!['\\', 'f']
    } else if c == '\r' {
        seq!['\\', 'r']
    } else if (c as int) < 0x20 {
        seq!['\\', 'u', '0', '0', hex_digit((c as int) / 16), hex_digit((c as int) % 16)]
    } else {
        seq![c]
    }
}

/// The characters of a text, each written as inside a JSON string.
pub open spec fn json_body(s: Seq<char>) -> Seq<char>
    decreases s.len(),
{
    if s.len() == 0 {
        Seq::empty()
    } else {
        json_body(s.drop_last()) + json_escape(s.last())
    }
}

/// The JSON string literal of a text: its characters escaped, in double quotes.
pub open spec fn json_quoted(s: Seq<char>) -> Seq<char> {
    seq!['"'] + json_body(s) + seq!['"']
}

/// `serde_json::to_string` of a string: the JSON string literal, with the
/// escapes of `serde_json`'s table (`json_quoted`); serializing a `&str`
/// cannot fail.
#[verifier::external_body]
fn json_string(s: &str) -> (r: String)
    ensures
        r@ == json_quoted(s@),
{
    serde_json::to_string(s).unwrap_or_default()
}

/// The stored JSON of a chunk's metadata.
pub open spec fn metadata_json(m: MetaSpec) -> Seq<char> {
    match m {
        MetaSpec::Empty => "{}"@,
        MetaSpec::Title(None) => "{\"title\":null}"@,
        MetaSpec::Title(Some(t)) => "{\"title\":"@ + json_quoted(t) + "}"@,
        MetaSpec::Agentic => "{\"strategy\":\"agentic\"}"@,
    }
}

/// The stored JSON of a chunk's metadata (`metadata_json`).
pub fn metadata_to_json(m: &ChunkMetadata) -> (r: String)
    ensures
        r@ == metadata_json(m@),
{
    match m {
        ChunkMetadata::Empty => owned("{}"),
        ChunkMetadata::Title(None) => owned("{\"title\":null}"),
        ChunkMetadata::Title(Some(t)) => {
            let mut v = chars_of("{\"title\":");
            append_chars(&mut v, &chars_of(json_string(t.as_str()).as_str()));
            append_chars(&mut v, &chars_of("}"));
            string_of(&v)
        },
        ChunkMetadata::Agentic => owned("{\"strategy\":\"agentic\"}"),
    }
}

} // verus!
