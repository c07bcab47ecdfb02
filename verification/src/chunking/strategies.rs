//! The splitting strategies: identifiers, parameters, descriptions for the
//! settings form, and the split each one performs.
use vstd::prelude::*;
use crate::error::AppError;
use crate::ollama::DEFAULT_CHAT_MODEL;
use crate::text::{chars_of, owned, str_eq, string_of, trim, trimmed};
use crate::chunking::chunk::{ChunkResult, ChunkSpec, chunks_view, finish_chunks, raw_view};
use crate::chunking::agentic::{AgenticStart, start_agentic, started};
use crate::chunking::fixed::{effective_chunk_size, effective_overlap, fixed_size_split, fixed_windows};
use crate::chunking::recursive::{recursive_char_chunks, recursive_chunks, strings_view};
use crate::chunking::semantic::{semantic_chunks, semantic_split};
use crate::chunking::structural::{has_heading, is_markdown, markdown_chunks, paragraph_chunks, split_markdown, split_paragraphs};

verus! {

/// The splitting strategies.
#[derive(Debug, Clone, Copy, PartialEq, Eq, Structural, Hash)]
pub enum SplitStrategyId {
    FixedSize,
    RecursiveChar,
    StructureBased,
    Semantic,
    Agentic,
}

/// The name under which a strategy is stored and sent.
pub open spec fn id_name(id: SplitStrategyId) -> Seq<char> {
    match id {
        SplitStrategyId::FixedSize => "fixed_size"@,
        SplitStrategyId::RecursiveChar => "recursive_char"@,
        SplitStrategyId::StructureBased => "structural"@,
        SplitStrategyId::Semantic => "semantic"@,
        SplitStrategyId::Agentic => "agentic"@,
    }
}

/// The strategy a name stands for.
pub open spec fn parse_id(s: Seq<char>) -> Option<SplitStrategyId> {
    if s == id_name(SplitStrategyId::FixedSize) {
        Some(SplitStrategyId::FixedSize)
    } else if s == id_name(SplitStrategyId::RecursiveChar) {
        Some(SplitStrategyId::RecursiveChar)
    } else if s == id_name(SplitStrategyId::StructureBased) {
        Some(SplitStrategyId::StructureBased)
    } else if s == id_name(SplitStrategyId::Semantic) {
        Some(SplitStrategyId::Semantic)
    } else if s == id_name(SplitStrategyId::Agentic) {
        Some(SplitStrategyId::Agentic)
    } else {
        None
    }
}

/// Reading a strategy's name back gives the strategy: the names are all
/// different.
pub proof fn lemma_id_name_roundtrip(id: SplitStrategyId)
    ensures
        parse_id(id_name(id)) == Some(id),
{
    reveal_strlit("fixed_size");
    reveal_strlit("recursive_char");
    reveal_strlit("structural");
    reveal_strlit("semantic");
    reveal_strlit("agentic");
    assert("fixed_size"@ != "recursive_char"@) by {
        assert("fixed_size"@[0] != "recursive_char"@[0]);
    }
    assert("fixed_size"@ != "structural"@) by {
        assert("fixed_size"@[0] != "structural"@[0]);
    }
    assert("fixed_size"@ != "semantic"@) by {
        assert("fixed_size"@[0] != "semantic"@[0]);
    }
    assert("fixed_size"@ != "agentic"@) by {
        assert("fixed_size"@[0] != "agentic"@[0]);
    }
    assert("recursive_char"@ != "structural"@) by {
        assert("recursive_char"@[0] != "structural"@[0]);
    }
    assert("recursive_char"@ != "semantic"@) by {
        assert("recursive_char"@[0] != "semantic"@[0]);
    }
    assert("recursive_char"@ != "agentic"@) by {
        assert("recursive_char"@[0] != "agentic"@[0]);
    }
    assert("structural"@ != "semantic"@) by {
        assert("structural"@[1] != "semantic"@[1]);
    }
    assert("structural"@ != "agentic"@) by {
        assert("structural"@[0] != "agentic"@[0]);
    }
    assert("semantic"@ != "agentic"@) by {
        assert("semantic"@[0] != "agentic"@[0]);
    }
}

impl SplitStrategyId {
    /// The strategy's name (`id_name`).
    pub fn as_str(&self) -> (r: &'static str)
        ensures
            r@ == id_name(*self),
    {
        match self {
            SplitStrategyId::FixedSize => "fixed_size",
            SplitStrategyId::RecursiveChar => "recursive_char",
            SplitStrategyId::StructureBased => "structural",
            SplitStrategyId::Semantic => "semantic",
            SplitStrategyId::Agentic => "agentic",
        }
    }

    /// The strategy a name stands for (`parse_id`); an unknown name is an error
    /// that names it.
    pub fn from_str(s: &str) -> (r: Result<SplitStrategyId, AppError>)
        ensures
            match r {
                Ok(id) => parse_id(s@) == Some(id),
                Err(e) => parse_id(s@) is None && (e matches AppError::Other(m) && m@ == "未知的切分策略: "@ + s@),
            },
    {
        if str_eq(s, "fixed_size") {
            Ok(SplitStrategyId::FixedSize)
        } else if str_eq(s, "recursive_char") {
            Ok(SplitStrategyId::RecursiveChar)
        } else if str_eq(s, "structural") {
            Ok(SplitStrategyId::StructureBased)
        } else if str_eq(s, "semantic") {
            Ok(SplitStrategyId::Semantic)
        } else if str_eq(s, "agentic") {
            Ok(SplitStrategyId::Agentic)
        } else {
            let mut m = chars_of("未知的切分策略: ");
            let t = chars_of(s);
            crate::text::append_chars(&mut m, &t);
            Err(AppError::Other(string_of(&m)))
        }
    }
}

/// The default value of a strategy parameter.
#[derive(Debug, Clone)]
pub enum ParamDefault {
    Number(u64),
    Text(String),
    TextList(Vec<String>),
}

/// A default value as a mathematical value.
pub enum DefaultSpec {
    Number(u64),
    Text(Seq<char>),
    TextList(Seq<Seq<char>>),
}

impl View for ParamDefault {
    type V = DefaultSpec;

    open spec fn view(&self) -> DefaultSpec {
        match self {
            ParamDefault::Number(n) => DefaultSpec::Number(*n),
            ParamDefault::Text(s) => DefaultSpec::Text(s@),
            ParamDefault::TextList(v) => DefaultSpec::TextList(strings_view(v@)),
        }
    }
}

/// How one strategy parameter is shown in the settings form.
#[derive(Debug, Clone)]
pub struct StrategyParamSchema {
    pub key: String,
    pub label: String,
    /// `"number"`, `"string"` or `"boolean"`.
    pub value_type: String,
    pub default: ParamDefault,
    pub min: Option<u64>,
    pub max: Option<u64>,
}

/// A strategy's description for the settings form.
#[derive(Debug, Clone)]
pub struct StrategyInfo {
    pub id: String,
    pub name: String,
    pub description: String,
    pub config_schema: Vec<StrategyParamSchema>,
}

/// The parameter has these key, label, type, default and bounds.
pub open spec fn param_is(
    p: StrategyParamSchema,
    key: Seq<char>,
    label: Seq<char>,
    ty: Seq<char>,
    default: DefaultSpec,
    min: Option<u64>,
    max: Option<u64>,
) -> bool {
    &&& p.key@ == key
    &&& p.label@ == label
    &&& p.value_type@ == ty
    &&& p.default@ == default
    &&& p.min == min
    &&& p.max == max
}

fn param(key: &str, label: &str, ty: &str, default: ParamDefault, min: Option<u64>, max: Option<u64>) -> (r: StrategyParamSchema)
    ensures
        param_is(r, key@, label@, ty@, default@, min, max),
{
    StrategyParamSchema { key: owned(key), label: owned(label), value_type: owned(ty), default, min, max }
}

fn info_of(id: SplitStrategyId, name: &str, description: &str, schema: Vec<StrategyParamSchema>) -> (r: StrategyInfo)
    ensures
        r.id@ == id_name(id),
        r.name@ == name@,
        r.description@ == description@,
        r.config_schema@ == schema@,
{
    StrategyInfo { id: owned(id.as_str()), name: owned(name), description: owned(description), config_schema: schema }
}

/// The default chunk size.
pub fn default_chunk_size() -> (r: usize)
    ensures
        r == 512,
{
    512
}

/// The default overlap.
pub fn default_overlap() -> (r: usize)
    ensures
        r == 50,
{
    50
}

/// The default number of sentences per topic group.
pub fn default_sentence_group_size() -> (r: usize)
    ensures
        r == 3,
{
    3
}

/// The default analysis window, in sentences.
pub fn default_window_size() -> (r: usize)
    ensures
        r == 20,
{
    20
}

/// The default separators, coarsest first.
pub open spec fn default_separators_spec() -> Seq<Seq<char>> {
    seq!["\n\n"@, "\n"@, ". "@, " "@, ""@]
}

/// The default separators: blank line, line feed, sentence end, space, nothing.
pub fn default_separators() -> (r: Vec<String>)
    ensures
        strings_view(r@) == default_separators_spec(),
{
    let mut v: Vec<String> = Vec::new();
    v.push(owned("\n\n"));
    v.push(owned("\n"));
    v.push(owned(". "));
    v.push(owned(" "));
    v.push(owned(""));
    assert(strings_view(v@) =~= default_separators_spec());
    v
}

/// Parameters of the fixed-size strategy.
#[derive(Debug, Clone)]
pub struct FixedSizeParams {
    pub chunk_size: usize,
    pub overlap: usize,
}

/// Parameters of the recursive character strategy.
#[derive(Debug, Clone)]
pub struct RecursiveCharParams {
    pub chunk_size: usize,
    pub overlap: usize,
    pub separators: Vec<String>,
}

/// Parameters of the structure-based strategy.
#[derive(Debug, Clone)]
pub struct StructuralParams {
    pub chunk_size: usize,
    pub overlap: usize,
}

/// Parameters of the semantic strategy.
#[derive(Debug, Clone)]
pub struct SemanticParams {
    pub chunk_size: usize,
    pub overlap: usize,
    pub sentence_group_size: usize,
}

/// Parameters of the model-assisted strategy.
#[derive(Debug, Clone)]
pub struct AgenticParams {
    pub model: Option<String>,
    pub prompt_template: Option<String>,
    pub max_chunk_size: usize,
    pub window_size: usize,
}

impl Default for FixedSizeParams {
    /// The documented defaults: 512 characters, overlap 50.
    fn default() -> (r: Self)
        ensures
            r.chunk_size == 512 && r.overlap == 50,
    {
        FixedSizeParams { chunk_size: default_chunk_size(), overlap: default_overlap() }
    }
}

impl Default for RecursiveCharParams {
    /// The documented defaults: 512 characters, overlap 50, the default separators.
    fn default() -> (r: Self)
        ensures
            r.chunk_size == 512 && r.overlap == 50,
            strings_view(r.separators@) == default_separators_spec(),
    {
        RecursiveCharParams { chunk_size: default_chunk_size(), overlap: default_overlap(), separators: default_separators() }
    }
}

impl Default for StructuralParams {
    /// The documented defaults: 512 characters, overlap 50.
    fn default() -> (r: Self)
        ensures
            r.chunk_size == 512 && r.overlap == 50,
    {
        StructuralParams { chunk_size: default_chunk_size(), overlap: default_overlap() }
    }
}

impl Default for SemanticParams {
    /// The documented defaults: 512 characters, overlap 50, three sentences per group.
    fn default() -> (r: Self)
        ensures
            r.chunk_size == 512 && r.overlap == 50 && r.sentence_group_size == 3,
    {
        SemanticParams {
            chunk_size: default_chunk_size(),
            overlap: default_overlap(),
            sentence_group_size: default_sentence_group_size(),
        }
    }
}

impl Default for AgenticParams {
    /// The documented defaults: no model or template given, 512 characters, a
    /// window of 20 sentences.
    fn default() -> (r: Self)
        ensures
            r.model is None && r.prompt_template is None && r.max_chunk_size == 512 && r.window_size == 20,
    {
        AgenticParams { model: None, prompt_template: None, max_chunk_size: default_chunk_size(), window_size: default_window_size() }
    }
}

/// A text parameter as it may arrive: one string, or a list of strings
/// (older settings split the text at commas).
pub enum TextOrList {
    Text(String),
    List(Vec<String>),
}

/// What a text parameter, given or not, reads as.
pub open spec fn text_param_spec(v: Option<TextOrList>) -> Option<Seq<char>> {
    match v {
        None => None,
        Some(TextOrList::Text(s)) => non_blank_spec(s@),
        Some(TextOrList::List(l)) => first_non_blank_spec(strings_view(l@)),
    }
}

/// Reads a text parameter: the trimmed string, or the first non-blank entry of
/// the list; `None` when it is absent or blank.
pub fn text_param(v: Option<TextOrList>) -> (r: Option<String>)
    ensures
        match r {
            Some(x) => text_param_spec(v) == Some(x@),
            None => text_param_spec(v) is None,
        },
{
    match v {
        None => None,
        Some(TextOrList::Text(s)) => non_blank(s.as_str()),
        Some(TextOrList::List(l)) => first_non_blank(&l),
    }
}

impl AgenticParams {
    /// The parameters from the fields that were given: text fields read by
    /// `text_param`, the sizes falling back to 512 and 20.
    pub fn from_fields(
        model: Option<TextOrList>,
        prompt_template: Option<TextOrList>,
        max_chunk_size: Option<usize>,
        window_size: Option<usize>,
    ) -> (r: Self)
        ensures
            match r.model {
                Some(x) => text_param_spec(model) == Some(x@),
                None => text_param_spec(model) is None,
            },
            match r.prompt_template {
                Some(x) => text_param_spec(prompt_template) == Some(x@),
                None => text_param_spec(prompt_template) is None,
            },
            r.max_chunk_size == (match max_chunk_size { Some(n) => n, None => 512 }),
            r.window_size == (match window_size { Some(n) => n, None => 20 }),
    {
        let max = match max_chunk_size {
            Some(n) => n,
            None => default_chunk_size(),
        };
        let window = match window_size {
            Some(n) => n,
            None => default_window_size(),
        };
        AgenticParams { model: text_param(model), prompt_template: text_param(prompt_template), max_chunk_size: max, window_size: window }
    }
}

/// The text trimmed, unless that leaves nothing.
pub open spec fn non_blank_spec(s: Seq<char>) -> Option<Seq<char>> {
    if trim(s).len() == 0 {
        None
    } else {
        Some(trim(s))
    }
}

/// The first of the texts that is not blank, trimmed.
pub open spec fn first_non_blank_spec(v: Seq<Seq<char>>) -> Option<Seq<char>>
    decreases v.len(),
{
    if v.len() == 0 {
        None
    } else if trim(v[0]).len() > 0 {
        Some(trim(v[0]))
    } else {
        first_non_blank_spec(v.drop_first())
    }
}

/// The text trimmed, or `None` when blank: how a text parameter is read.
pub fn non_blank(s: &str) -> (r: Option<String>)
    ensures
        match r {
            Some(x) => non_blank_spec(s@) == Some(x@),
            None => non_blank_spec(s@) is None,
        },
{
    let c = chars_of(s);
    let t = trimmed(&c);
    if t.len() == 0 {
        None
    } else {
        Some(string_of(&t))
    }
}

/// The first non-blank text, trimmed: how a text parameter that arrives as a
/// list is read.
pub fn first_non_blank(values: &Vec<String>) -> (r: Option<String>)
    ensures
        match r {
            Some(x) => first_non_blank_spec(strings_view(values@)) == Some(x@),
            None => first_non_blank_spec(strings_view(values@)) is None,
        },
{
    let ghost sv = strings_view(values@);
    let mut k: usize = 0;
    assert(sv.skip(0) =~= sv);
    while k < values.len()
        invariant
            sv == strings_view(values@),
            k <= sv.len(),
            first_non_blank_spec(sv.skip(k as int)) == first_non_blank_spec(sv),
        decreases values.len() - k,
    {
        let c = chars_of(values[k].as_str());
        let t = trimmed(&c);
        proof {
            assert(sv.skip(k as int)[0] == values@[k as int]@);
            assert(sv.skip(k as int).drop_first() =~= sv.skip(k + 1));
        }
        if t.len() > 0 {
            return Some(string_of(&t));
        }
        k = k + 1;
    }
    assert(sv.skip(k as int) =~= Seq::<Seq<char>>::empty());
    None
}

/// The chunk size in effect for the model-assisted strategy: at least 64.
pub open spec fn agentic_max(p: AgenticParams) -> usize {
    if p.max_chunk_size < 64 { 64 } else { p.max_chunk_size }
}

/// The window in effect: between 2 and 100 sentences.
pub open spec fn agentic_window(p: AgenticParams) -> usize {
    if p.window_size < 2 {
        2
    } else if p.window_size > 100 {
        100
    } else {
        p.window_size
    }
}

/// The template in effect: the given one unless missing or empty.
pub open spec fn agentic_template(p: AgenticParams) -> Seq<char> {
    match p.prompt_template {
        Some(t) => if t@.len() > 0 {
            t@
        } else {
            DEFAULT_AGENTIC_PROMPT@
        },
        None => DEFAULT_AGENTIC_PROMPT@,
    }
}

/// The model in effect: the given one unless missing or empty, else the
/// configured chat model unless empty, else the default chat model.
pub open spec fn agentic_model(p: AgenticParams, chat_model: Seq<char>) -> Seq<char> {
    match p.model {
        Some(m) if m@.len() > 0 => m@,
        _ => if chat_model.len() > 0 {
            chat_model
        } else {
            DEFAULT_CHAT_MODEL@
        },
    }
}

impl AgenticParams {
    /// The chunk size in effect (`agentic_max`).
    pub fn effective_max_chunk_size(&self) -> (r: usize)
        ensures
            r == agentic_max(*self),
    {
        if self.max_chunk_size < 64 {
            64
        } else {
            self.max_chunk_size
        }
    }

    /// The window in effect (`agentic_window`).
    pub fn effective_window_size(&self) -> (r: usize)
        ensures
            r == agentic_window(*self),
    {
        if self.window_size < 2 {
            2
        } else if self.window_size > 100 {
            100
        } else {
            self.window_size
        }
    }

    /// The template in effect (`agentic_template`).
    pub fn effective_template(&self) -> (r: String)
        ensures
            r@ == agentic_template(*self),
    {
        match &self.prompt_template {
            Some(t) => {
                if !t.as_str().is_empty() {
                    owned(t.as_str())
                } else {
                    owned(DEFAULT_AGENTIC_PROMPT)
                }
            },
            None => owned(DEFAULT_AGENTIC_PROMPT),
        }
    }

    /// The model in effect (`agentic_model`).
    pub fn effective_model(&self, chat_model: &str) -> (r: String)
        ensures
            r@ == agentic_model(*self, chat_model@),
    {
        match &self.model {
            Some(m) => {
                if !m.as_str().is_empty() {
                    return owned(m.as_str());
                }
            },
            None => {},
        }
        if !chat_model.is_empty() {
            owned(chat_model)
        } else {
            owned(DEFAULT_CHAT_MODEL)
        }
    }
}

/// The prompt template of the model-assisted strategy; `{max_chunk_size}`
/// and `{sentences}` are filled in.
pub const DEFAULT_AGENTIC_PROMPT: &'static str = r#"/no_think
你是文档切分专家。下面是一段连续的文本，已按句子编号。请找出话题或语义发生明显转换的位置，在这些句子之后切开，使每段围绕一个主题。

要求：
1. 每段长度尽量控制在 {max_chunk_size} 字符以内，但不要为了凑长度在语义连贯处硬切
2. 只输出一个 JSON 数组，元素为"需要在其后切开"的句子编号，按从小到大排列
3. 不要输出编号以外的任何文字、解释或标点
4. 若整段无需切分，输出 []

示例输出：[3, 7, 12]

文本：
{sentences}

输出：
"#;

/// The sliding-window strategy.
pub struct FixedSizeStrategy;

/// The strategy that cuts at separators, coarsest first.
pub struct RecursiveCharStrategy;

/// The strategy that follows Markdown headings or paragraphs.
pub struct StructuralStrategy;

/// The strategy that follows sentences and topic shifts.
pub struct SemanticStrategy;

/// The strategy that asks a language model where topics change.
pub struct AgenticSplitStrategy;

impl FixedSizeStrategy {
    pub fn id(&self) -> (r: SplitStrategyId)
        ensures
            r == SplitStrategyId::FixedSize,
    {
        SplitStrategyId::FixedSize
    }

    /// The description: window size and overlap.
    pub fn info(&self) -> (r: StrategyInfo)
        ensures
            r.id@ == id_name(SplitStrategyId::FixedSize),
            r.name@ == "固定大小切分"@,
            r.description@ == "基于字符数的滑动窗口,chunk_size=512, overlap=50"@,
            r.config_schema@.len() == 2,
            param_is(r.config_schema@[0], "chunk_size"@, "片段大小(字符数)"@, "number"@, DefaultSpec::Number(512), Some(64u64), Some(8192u64)),
            param_is(r.config_schema@[1], "overlap"@, "重叠字符数"@, "number"@, DefaultSpec::Number(50), Some(0u64), Some(1024u64)),
    {
        let mut s: Vec<StrategyParamSchema> = Vec::new();
        s.push(param("chunk_size", "片段大小(字符数)", "number", ParamDefault::Number(512), Some(64), Some(8192)));
        s.push(param("overlap", "重叠字符数", "number", ParamDefault::Number(50), Some(0), Some(1024)));
        info_of(SplitStrategyId::FixedSize, "固定大小切分", "基于字符数的滑动窗口,chunk_size=512, overlap=50", s)
    }

    /// The sliding-window split (`fixed_windows`) with chunk size at least 64
    /// and overlap below it.
    pub fn split(&self, text: &str, params: &FixedSizeParams) -> (r: Vec<ChunkResult>)
        ensures
            chunks_view(r@) == fixed_windows(
                text@,
                0,
                effective_chunk_size(params.chunk_size) as int,
                (effective_chunk_size(params.chunk_size) - effective_overlap(params.chunk_size, params.overlap)) as int,
                0,
            ),
    {
        fixed_size_split(text, params.chunk_size, params.overlap)
    }
}

impl RecursiveCharStrategy {
    pub fn id(&self) -> (r: SplitStrategyId)
        ensures
            r == SplitStrategyId::RecursiveChar,
    {
        SplitStrategyId::RecursiveChar
    }

    /// The description: size, overlap and separators.
    pub fn info(&self) -> (r: StrategyInfo)
        ensures
            r.id@ == id_name(SplitStrategyId::RecursiveChar),
            r.name@ == "递归字符切分"@,
            r.description@ == "按层级分隔符 [\\n\\n, \\n, \". \", \" \", \"\"] 递归分割,优先保持段落与句子完整性"@,
            r.config_schema@.len() == 3,
            param_is(r.config_schema@[0], "chunk_size"@, "片段大小(字符数)"@, "number"@, DefaultSpec::Number(512), Some(64u64), Some(8192u64)),
            param_is(r.config_schema@[1], "overlap"@, "重叠字符数"@, "number"@, DefaultSpec::Number(50), Some(0u64), Some(1024u64)),
            param_is(
                r.config_schema@[2],
                "separators"@,
                "分隔符层级"@,
                "string"@,
                DefaultSpec::TextList(default_separators_spec()),
                None,
                None,
            ),
    {
        let mut s: Vec<StrategyParamSchema> = Vec::new();
        s.push(param("chunk_size", "片段大小(字符数)", "number", ParamDefault::Number(512), Some(64), Some(8192)));
        s.push(param("overlap", "重叠字符数", "number", ParamDefault::Number(50), Some(0), Some(1024)));
        s.push(param("separators", "分隔符层级", "string", ParamDefault::TextList(default_separators()), None, None));
        info_of(
            SplitStrategyId::RecursiveChar,
            "递归字符切分",
            "按层级分隔符 [\\n\\n, \\n, \". \", \" \", \"\"] 递归分割,优先保持段落与句子完整性",
            s,
        )
    }

    /// The recursive character split (`recursive_chunks`) with chunk size at
    /// least 64, overlap below it, and the default separators when none are given.
    pub fn split(&self, text: &str, params: &RecursiveCharParams) -> (r: Vec<ChunkResult>)
        ensures
            chunks_view(r@) == recursive_chunks(
                text@,
                if params.separators@.len() == 0 {
                    default_separators_spec()
                } else {
                    strings_view(params.separators@)
                },
                effective_chunk_size(params.chunk_size) as int,
                effective_overlap(params.chunk_size, params.overlap) as int,
            ),
    {
        let cs = if params.chunk_size < 64 { 64 } else { params.chunk_size };
        let ov = if params.overlap < cs - 1 { params.overlap } else { cs - 1 };
        let chars = chars_of(text);
        let raw = if params.separators.len() == 0 {
            let d = default_separators();
            recursive_char_chunks(&chars, d.as_slice(), cs, ov)
        } else {
            recursive_char_chunks(&chars, params.separators.as_slice(), cs, ov)
        };
        finish_chunks(raw)
    }
}

/// The structure-based split: by Markdown heading when a line starts with
/// `#`, otherwise by paragraph.
pub open spec fn structural_chunks(t: Seq<char>, cs: int, ov: int) -> Seq<ChunkSpec> {
    if has_heading(t) {
        markdown_chunks(t, cs, ov)
    } else {
        paragraph_chunks(t, cs, ov)
    }
}

impl StructuralStrategy {
    pub fn id(&self) -> (r: SplitStrategyId)
        ensures
            r == SplitStrategyId::StructureBased,
    {
        SplitStrategyId::StructureBased
    }

    /// The description: size and overlap.
    pub fn info(&self) -> (r: StrategyInfo)
        ensures
            r.id@ == id_name(SplitStrategyId::StructureBased),
            r.name@ == "基于结构切分"@,
            r.description@ == "按 Markdown 标题 / HTML 标签等结构单元切分,保持文档逻辑结构"@,
            r.config_schema@.len() == 2,
            param_is(r.config_schema@[0], "chunk_size"@, "片段最大字符数"@, "number"@, DefaultSpec::Number(512), Some(64u64), Some(8192u64)),
            param_is(r.config_schema@[1], "overlap"@, "重叠字符数"@, "number"@, DefaultSpec::Number(50), Some(0u64), Some(1024u64)),
    {
        let mut s: Vec<StrategyParamSchema> = Vec::new();
        s.push(param("chunk_size", "片段最大字符数", "number", ParamDefault::Number(512), Some(64), Some(8192)));
        s.push(param("overlap", "重叠字符数", "number", ParamDefault::Number(50), Some(0), Some(1024)));
        info_of(SplitStrategyId::StructureBased, "基于结构切分", "按 Markdown 标题 / HTML 标签等结构单元切分,保持文档逻辑结构", s)
    }

    /// The structure-based split (`structural_chunks`) with chunk size at
    /// least 64 and overlap below it.
    pub fn split(&self, text: &str, params: &StructuralParams) -> (r: Vec<ChunkResult>)
        ensures
            chunks_view(r@) == structural_chunks(
                text@,
                effective_chunk_size(params.chunk_size) as int,
                effective_overlap(params.chunk_size, params.overlap) as int,
            ),
    {
        let cs = if params.chunk_size < 64 { 64 } else { params.chunk_size };
        let ov = if params.overlap < cs - 1 { params.overlap } else { cs - 1 };
        let chars = chars_of(text);
        let raw = if is_markdown(&chars) {
            split_markdown(&chars, cs, ov)
        } else {
            split_paragraphs(&chars, cs, ov)
        };
        finish_chunks(raw)
    }
}

/// The group size in effect: at least one sentence.
pub open spec fn group_size_for(p: SemanticParams) -> usize {
    if p.sentence_group_size < 1 { 1 } else { p.sentence_group_size }
}

impl SemanticStrategy {
    pub fn id(&self) -> (r: SplitStrategyId)
        ensures
            r == SplitStrategyId::Semantic,
    {
        SplitStrategyId::Semantic
    }

    /// The description: size, overlap and group size.
    pub fn info(&self) -> (r: StrategyInfo)
        ensures
            r.id@ == id_name(SplitStrategyId::Semantic),
            r.name@ == "语义切分"@,
            r.description@ == "按句子边界和话题转换点切分,保持语义连贯性,优先合并短句"@,
            r.config_schema@.len() == 3,
            param_is(r.config_schema@[0], "chunk_size"@, "片段大小(字符数)"@, "number"@, DefaultSpec::Number(512), Some(64u64), Some(8192u64)),
            param_is(r.config_schema@[1], "overlap"@, "重叠字符数"@, "number"@, DefaultSpec::Number(50), Some(0u64), Some(1024u64)),
            param_is(r.config_schema@[2], "sentence_group_size"@, "句子分组数"@, "number"@, DefaultSpec::Number(3), Some(1u64), Some(10u64)),
    {
        let mut s: Vec<StrategyParamSchema> = Vec::new();
        s.push(param("chunk_size", "片段大小(字符数)", "number", ParamDefault::Number(512), Some(64), Some(8192)));
        s.push(param("overlap", "重叠字符数", "number", ParamDefault::Number(50), Some(0), Some(1024)));
        s.push(param("sentence_group_size", "句子分组数", "number", ParamDefault::Number(3), Some(1), Some(10)));
        info_of(SplitStrategyId::Semantic, "语义切分", "按句子边界和话题转换点切分,保持语义连贯性,优先合并短句", s)
    }

    /// The semantic split (`semantic_chunks`) with chunk size at least 64,
    /// overlap below it and groups of at least one sentence.
    pub fn split(&self, text: &str, params: &SemanticParams) -> (r: Vec<ChunkResult>)
        requires
            text@.len() <= usize::MAX / 8,
            effective_chunk_size(params.chunk_size) + effective_overlap(params.chunk_size, params.overlap) <= usize::MAX,
        ensures
            chunks_view(r@) == semantic_chunks(
                text@,
                effective_chunk_size(params.chunk_size) as int,
                effective_overlap(params.chunk_size, params.overlap) as int,
                group_size_for(*params) as int,
            ),
    {
        let cs = if params.chunk_size < 64 { 64 } else { params.chunk_size };
        let ov = if params.overlap < cs - 1 { params.overlap } else { cs - 1 };
        let gs = if params.sentence_group_size < 1 { 1 } else { params.sentence_group_size };
        semantic_split(text, cs, ov, gs)
    }
}

impl AgenticSplitStrategy {
    pub fn id(&self) -> (r: SplitStrategyId)
        ensures
            r == SplitStrategyId::Agentic,
    {
        SplitStrategyId::Agentic
    }

    /// The description: model, template, size bound and window.
    pub fn info(&self) -> (r: StrategyInfo)
        ensures
            r.id@ == id_name(SplitStrategyId::Agentic),
            r.name@ == "智能切分"@,
            r.description@ == "调用本地 LLM 分析语义切分点,质量更高;导入时需逐窗口调用模型,耗时显著长于其他策略"@,
            r.config_schema@.len() == 4,
            param_is(r.config_schema@[0], "model"@, "切分模型"@, "string"@, DefaultSpec::Text(DEFAULT_CHAT_MODEL@), None, None),
            param_is(
                r.config_schema@[1],
                "prompt_template"@,
                "提示词模板"@,
                "string"@,
                DefaultSpec::Text(DEFAULT_AGENTIC_PROMPT@),
                None,
                None,
            ),
            param_is(r.config_schema@[2], "max_chunk_size"@, "片段最大字符数"@, "number"@, DefaultSpec::Number(512), Some(128u64), Some(4096u64)),
            param_is(r.config_schema@[3], "window_size"@, "分析窗口(句)"@, "number"@, DefaultSpec::Number(20), Some(5u64), Some(50u64)),
    {
        let mut s: Vec<StrategyParamSchema> = Vec::new();
        s.push(param("model", "切分模型", "string", ParamDefault::Text(owned(DEFAULT_CHAT_MODEL)), None, None));
        s.push(param("prompt_template", "提示词模板", "string", ParamDefault::Text(owned(DEFAULT_AGENTIC_PROMPT)), None, None));
        s.push(param("max_chunk_size", "片段最大字符数", "number", ParamDefault::Number(512), Some(128), Some(4096)));
        s.push(param("window_size", "分析窗口(句)", "number", ParamDefault::Number(20), Some(5), Some(50)));
        info_of(
            SplitStrategyId::Agentic,
            "智能切分",
            "调用本地 LLM 分析语义切分点,质量更高;导入时需逐窗口调用模型,耗时显著长于其他策略",
            s,
        )
    }

    /// Begins a split with the effective parameters (`start_agentic` with
    /// `agentic_template`, `agentic_max` and `agentic_window`).
    pub fn start(&self, text: &str, params: &AgenticParams) -> (r: AgenticStart)
        requires
            text@.len() < usize::MAX,
        ensures
            started(r, text@, agentic_template(*params), agentic_max(*params) as int, agentic_window(*params) as int),
    {
        let template = params.effective_template();
        let max = params.effective_max_chunk_size();
        let ws = params.effective_window_size();
        start_agentic(text, template.as_str(), max, ws)
    }
}

/// A strategy, as chosen by its identifier.
pub enum Strategy {
    FixedSize(FixedSizeStrategy),
    RecursiveChar(RecursiveCharStrategy),
    StructureBased(StructuralStrategy),
    Semantic(SemanticStrategy),
    Agentic(AgenticSplitStrategy),
}

impl Strategy {
    /// The identifier of the strategy.
    pub open spec fn id_spec(&self) -> SplitStrategyId {
        match self {
            Strategy::FixedSize(_) => SplitStrategyId::FixedSize,
            Strategy::RecursiveChar(_) => SplitStrategyId::RecursiveChar,
            Strategy::StructureBased(_) => SplitStrategyId::StructureBased,
            Strategy::Semantic(_) => SplitStrategyId::Semantic,
            Strategy::Agentic(_) => SplitStrategyId::Agentic,
        }
    }

    /// The identifier of the strategy.
    pub fn id(&self) -> (r: SplitStrategyId)
        ensures
            r == self.id_spec(),
    {
        match self {
            Strategy::FixedSize(s) => s.id(),
            Strategy::RecursiveChar(s) => s.id(),
            Strategy::StructureBased(s) => s.id(),
            Strategy::Semantic(s) => s.id(),
            Strategy::Agentic(s) => s.id(),
        }
    }

    /// The description of the strategy, under the strategy's identifier.
    pub fn info(&self) -> (r: StrategyInfo)
        ensures
            r.id@ == id_name(self.id_spec()),
    {
        match self {
            Strategy::FixedSize(s) => s.info(),
            Strategy::RecursiveChar(s) => s.info(),
            Strategy::StructureBased(s) => s.info(),
            Strategy::Semantic(s) => s.info(),
            Strategy::Agentic(s) => s.info(),
        }
    }
}

/// The strategy with identifier `id`.
pub fn get_strategy(id: SplitStrategyId) -> (r: Strategy)
    ensures
        r.id_spec() == id,
{
    match id {
        SplitStrategyId::FixedSize => Strategy::FixedSize(FixedSizeStrategy),
        SplitStrategyId::RecursiveChar => Strategy::RecursiveChar(RecursiveCharStrategy),
        SplitStrategyId::StructureBased => Strategy::StructureBased(StructuralStrategy),
        SplitStrategyId::Semantic => Strategy::Semantic(SemanticStrategy),
        SplitStrategyId::Agentic => Strategy::Agentic(AgenticSplitStrategy),
    }
}

/// The descriptions of all strategies, in the order they are offered.
pub fn list_strategies() -> (r: Vec<StrategyInfo>)
    ensures
        r@.len() == 5,
        r@[0].id@ == id_name(SplitStrategyId::FixedSize),
        r@[1].id@ == id_name(SplitStrategyId::RecursiveChar),
        r@[2].id@ == id_name(SplitStrategyId::StructureBased),
        r@[3].id@ == id_name(SplitStrategyId::Semantic),
        r@[4].id@ == id_name(SplitStrategyId::Agentic),
{
    let mut v: Vec<StrategyInfo> = Vec::new();
    v.push(FixedSizeStrategy.info());
    v.push(RecursiveCharStrategy.info());
    v.push(StructuralStrategy.info());
    v.push(SemanticStrategy.info());
    v.push(AgenticSplitStrategy.info());
    v
}

} // verus!
