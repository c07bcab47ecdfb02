//! The result type shared by all chunking strategies.
use vstd::prelude::*;
use crate::text::string_of;

verus! {

/// Metadata attached to a chunk.
#[derive(Debug, Clone, PartialEq, Eq)]
pub enum ChunkMetadata {
    /// No metadata (`{}`).
    Empty,
    /// The Markdown heading of the section the chunk comes from (`{"title": ...}`).
    Title(Option<String>),
    /// The chunk was produced by the LLM-assisted strategy (`{"strategy": "agentic"}`).
    Agentic,
}

/// Metadata as a mathematical value.
pub enum MetaSpec {
    Empty,
    Title(Option<Seq<char>>),
    Agentic,
}

impl View for ChunkMetadata {
    type V = MetaSpec;

    open spec fn view(&self) -> MetaSpec {
        match self {
            ChunkMetadata::Empty => MetaSpec::Empty,
            ChunkMetadata::Title(t) => MetaSpec::Title(
                match t {
                    Some(s) => Some(s@),
                    None => None,
                },
            ),
            ChunkMetadata::Agentic => MetaSpec::Agentic,
        }
    }
}

/// One chunk of a split text.
#[derive(Debug, Clone)]
pub struct ChunkResult {
    /// The chunk's text.
    pub text: String,
    /// Character offset in the original text where the chunk starts.
    pub start: usize,
    /// Character offset in the original text where the chunk ends (exclusive).
    pub end: usize,
    /// Position of the chunk in the result.
    pub index: usize,
    /// Metadata (heading, strategy).
    pub metadata: ChunkMetadata,
}

/// A chunk as a mathematical value.
pub struct ChunkSpec {
    pub text: Seq<char>,
    pub start: int,
    pub end: int,
    pub index: int,
    pub meta: MetaSpec,
}

impl View for ChunkResult {
    type V = ChunkSpec;

    open spec fn view(&self) -> ChunkSpec {
        ChunkSpec {
            text: self.text@,
            start: self.start as int,
            end: self.end as int,
            index: self.index as int,
            meta: self.metadata@,
        }
    }
}

/// A chunk under construction, its text held as characters.
pub struct RawChunk {
    pub text: Vec<char>,
    pub start: usize,
    pub end: usize,
    pub index: usize,
    pub metadata: ChunkMetadata,
}

impl View for RawChunk {
    type V = ChunkSpec;

    open spec fn view(&self) -> ChunkSpec {
        ChunkSpec {
            text: self.text@,
            start: self.start as int,
            end: self.end as int,
            index: self.index as int,
            meta: self.metadata@,
        }
    }
}

/// The views of a list of chunks under construction.
pub open spec fn raw_view(v: Seq<RawChunk>) -> Seq<ChunkSpec> {
    v.map_values(|c: RawChunk| c@)
}

/// The views of a list of chunks.
pub open spec fn chunks_view(v: Seq<ChunkResult>) -> Seq<ChunkSpec> {
    v.map_values(|c: ChunkResult| c@)
}

pub proof fn lemma_raw_view_push(v: Seq<RawChunk>, c: RawChunk)
    ensures
        raw_view(v.push(c)) == raw_view(v).push(c@),
{
    assert(raw_view(v.push(c)) =~= raw_view(v).push(c@));
}

/// Every chunk's `index` is its position in the list.
pub open spec fn indexed(v: Seq<ChunkSpec>) -> bool {
    forall|i: int| 0 <= i < v.len() ==> (#[trigger] v[i]).index == i
}

/// A copy of a chunk's metadata.
pub fn copy_metadata(m: &ChunkMetadata) -> (r: ChunkMetadata)
    ensures
        r@ == m@,
{
    match m {
        ChunkMetadata::Empty => ChunkMetadata::Empty,
        ChunkMetadata::Title(None) => ChunkMetadata::Title(None),
        ChunkMetadata::Title(Some(s)) => ChunkMetadata::Title(Some(s.clone())),
        ChunkMetadata::Agentic => ChunkMetadata::Agentic,
    }
}

/// Turns finished chunks into results.
pub fn finish_chunks(v: Vec<RawChunk>) -> (r: Vec<ChunkResult>)
    ensures
        chunks_view(r@) == raw_view(v@),
{
    let mut out: Vec<ChunkResult> = Vec::new();
    let mut i: usize = 0;
    while i < v.len()
        invariant
            i <= v@.len(),
            chunks_view(out@) == raw_view(v@).take(i as int),
        decreases v.len() - i,
    {
        let c = &v[i];
        let m = copy_metadata(&c.metadata);
        let r = ChunkResult { text: string_of(&c.text), start: c.start, end: c.end, index: c.index, metadata: m };
        let ghost before = out@;
        out.push(r);
        proof {
            assert(chunks_view(out@) =~= chunks_view(before).push(r@));
            assert(raw_view(v@).take(i + 1) =~= raw_view(v@).take(i as int).push(v@[i as int]@));
        }
        i = i + 1;
    }
    proof {
        assert(raw_view(v@).take(v@.len() as int) =~= raw_view(v@));
    }
    out
}

} // verus!
