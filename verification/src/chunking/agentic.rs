//! LLM-assisted splitting: windows of numbered sentences go to a model, its
//! answers become cut points, and the resulting segments are bounded in size.
use vstd::prelude::*;
use crate::text::{append_chars, chars_of, owned, string_of, trim, trimmed};
use crate::chunking::chunk::{ChunkMetadata, ChunkResult, ChunkSpec, MetaSpec, RawChunk, chunks_view, copy_metadata, finish_chunks, lemma_raw_view_push, raw_view};
use crate::chunking::sentences::{Sentence, SentenceSpec, sentences_of, sents_view, split_sentence_chars};
use crate::error::AppError;
use crate::chunking::points::{is_split_points, parse_split_points, split_point_candidates, strictly_increasing};
use crate::chunking::prompt::{agentic_prompt, build_agentic_prompt, numbered_line, numbered_lines};
use crate::numfmt::{decimal, digits_value, is_digit, lemma_decimal_roundtrip};
use crate::chunking::semantic::{semantic_split, 
    accumulate_sentences, accumulate_spec, chunks_fit, join_texts, lemma_sentences_ok, offset_sentences, offset_sents,
    sents_fit_usize, sents_ok,
};

verus! {

/// Extends the window `[start, end)` one sentence at a time while it has fewer
/// than `ws` sentences and the next sentence keeps its size within `max`.
pub open spec fn grow_window(ss: Seq<SentenceSpec>, start: int, end: int, chars: int, ws: int, max: int) -> int
    decreases ss.len() - end,
{
    if end < ss.len() && end - start < ws && chars + ss[end].text.len() <= max {
        grow_window(ss, start, end + 1, chars + ss[end].text.len(), ws, max)
    } else {
        end
    }
}

/// The end (exclusive) of the window starting at `start`: at most `ws`
/// sentences and `max` characters, but two sentences where the text has them.
pub open spec fn window_end_spec(ss: Seq<SentenceSpec>, start: int, ws: int, max: int) -> int {
    let e = grow_window(ss, start, start, 0, ws, max);
    if e - start < 2 && e < ss.len() {
        if start + 2 <= ss.len() {
            start + 2
        } else {
            ss.len() as int
        }
    } else {
        e
    }
}

pub proof fn lemma_grow_window(ss: Seq<SentenceSpec>, start: int, end: int, chars: int, ws: int, max: int)
    ensures
        end <= grow_window(ss, start, end, chars, ws, max),
        end <= ss.len() ==> grow_window(ss, start, end, chars, ws, max) <= ss.len(),
    decreases ss.len() - end,
{
    if end < ss.len() && end - start < ws && chars + ss[end].text.len() <= max {
        lemma_grow_window(ss, start, end + 1, chars + ss[end].text.len(), ws, max);
    }
}

/// The end of the analysis window that starts at sentence `start`
/// (`window_end_spec`); a window that starts inside the text always holds at
/// least one sentence, so a walk over the windows always moves on.
pub fn window_end(sentences: &[Sentence], start: usize, window_size: usize, max_chars: usize) -> (r: usize)
    ensures
        r == window_end_spec(sents_view(sentences@), start as int, window_size as int, max_chars as int),
        start < sentences@.len() ==> start < r <= sentences@.len(),
{
    let ghost ss = sents_view(sentences@);
    let n = sentences.len();
    let mut end = start;
    let mut chars: usize = 0;
    proof {
        lemma_grow_window(ss, start as int, start as int, 0, window_size as int, max_chars as int);
    }
    while end < n && end - start < window_size && sentences[end].text.len() <= max_chars - chars
        invariant
            ss == sents_view(sentences@),
            n == ss.len(),
            start <= end,
            chars <= max_chars,
            grow_window(ss, start as int, end as int, chars as int, window_size as int, max_chars as int)
                == grow_window(ss, start as int, start as int, 0, window_size as int, max_chars as int),
        decreases n - end,
    {
        assert(ss[end as int] == sentences@[end as int]@);
        chars = chars + sentences[end].text.len();
        end = end + 1;
    }
    proof {
        if end < n {
            assert(ss[end as int] == sentences@[end as int]@);
        }
        lemma_grow_window(ss, start as int, start as int, 0, window_size as int, max_chars as int);
    }
    if end - start < 2 && end < n {
        if n - start >= 2 {
            start + 2
        } else {
            n
        }
    } else {
        end
    }
}

/// A segment of the text: its trimmed text and its start and end offsets.
pub open spec fn piece_view(p: (String, usize, usize)) -> (Seq<char>, int, int) {
    (p.0@, p.1 as int, p.2 as int)
}

/// The views of a list of segments.
pub open spec fn pieces_view(v: Seq<(String, usize, usize)>) -> Seq<(Seq<char>, int, int)> {
    v.map_values(|p: (String, usize, usize)| piece_view(p))
}

/// The segment made of the sentences `ss[a..b]`, when its trimmed text is not empty.
pub open spec fn push_group(out: Seq<(Seq<char>, int, int)>, ss: Seq<SentenceSpec>, a: int, b: int) -> Seq<(Seq<char>, int, int)> {
    let tr = trim(join_texts(ss.subrange(a, b)));
    if tr.len() > 0 {
        out.push((tr, ss[a].start, ss[b - 1].start + ss[b - 1].text.len()))
    } else {
        out
    }
}

/// Takes one cut (a 0-based sentence index, the sentence included): cuts
/// before the current group's start or past the end are skipped.
pub open spec fn cut_step(st: (Seq<(Seq<char>, int, int)>, int), ss: Seq<SentenceSpec>, c: int) -> (Seq<(Seq<char>, int, int)>, int) {
    if c < st.1 || c >= ss.len() {
        st
    } else {
        (push_group(st.0, ss, st.1, c + 1), c + 1)
    }
}

pub open spec fn cut_fold(ss: Seq<SentenceSpec>, cuts: Seq<usize>) -> (Seq<(Seq<char>, int, int)>, int)
    decreases cuts.len(),
{
    if cuts.len() == 0 {
        (Seq::empty(), 0)
    } else {
        cut_step(cut_fold(ss, cuts.drop_last()), ss, cuts.last() as int)
    }
}

/// The segments that the cuts make of the sentences: one per cut, then the
/// rest; segments whose trimmed text is empty are left out.
pub open spec fn grouped_segments(ss: Seq<SentenceSpec>, cuts: Seq<usize>) -> Seq<(Seq<char>, int, int)> {
    let st = cut_fold(ss, cuts);
    if st.1 < ss.len() {
        push_group(st.0, ss, st.1, ss.len() as int)
    } else {
        st.0
    }
}

proof fn lemma_cut_fold_bound(ss: Seq<SentenceSpec>, cuts: Seq<usize>)
    ensures
        0 <= cut_fold(ss, cuts).1 <= ss.len(),
    decreases cuts.len(),
{
    if cuts.len() > 0 {
        lemma_cut_fold_bound(ss, cuts.drop_last());
    }
}

/// The trimmed concatenation of the texts of `sentences[a..b]`.
fn joined_trimmed(sentences: &[Sentence], a: usize, b: usize) -> (r: Vec<char>)
    requires
        a <= b <= sentences@.len(),
    ensures
        r@ == trim(join_texts(sents_view(sentences@).subrange(a as int, b as int))),
{
    let ghost sv = sents_view(sentences@);
    let mut joined: Vec<char> = Vec::new();
    let mut j = a;
    proof {
        assert(sv.subrange(a as int, a as int) =~= Seq::<SentenceSpec>::empty());
    }
    while j < b
        invariant
            sv == sents_view(sentences@),
            a <= j <= b <= sv.len(),
            joined@ == join_texts(sv.subrange(a as int, j as int)),
        decreases b - j,
    {
        assert(sv[j as int] == sentences@[j as int]@);
        append_chars(&mut joined, &sentences[j].text);
        proof {
            assert(sv.subrange(a as int, j + 1).drop_last() =~= sv.subrange(a as int, j as int));
        }
        j = j + 1;
    }
    trimmed(&joined)
}

/// Appends the segment `sentences[a..b]` when its trimmed text is not empty (`push_group`).
fn push_segment(out: &mut Vec<(String, usize, usize)>, sentences: &[Sentence], a: usize, b: usize)
    requires
        a < b <= sentences@.len(),
        sents_fit_usize(sents_view(sentences@)),
    ensures
        pieces_view(final(out)@) == push_group(pieces_view(old(out)@), sents_view(sentences@), a as int, b as int),
{
    let ghost sv = sents_view(sentences@);
    let tr = joined_trimmed(sentences, a, b);
    if tr.len() > 0 {
        assert(sv[a as int] == sentences@[a as int]@);
        assert(sv[b - 1] == sentences@[b - 1]@);
        let last = &sentences[b - 1];
        let item = (string_of(&tr), sentences[a].start, last.start + last.text.len());
        let ghost before = out@;
        out.push(item);
        assert(pieces_view(out@) =~= pieces_view(before).push(piece_view(item)));
    }
}

/// Groups sentences into segments at the cuts (`grouped_segments`).
pub fn group_by_cuts(sentences: &[Sentence], cuts: &[usize]) -> (r: Vec<(String, usize, usize)>)
    requires
        sents_fit_usize(sents_view(sentences@)),
    ensures
        pieces_view(r@) == grouped_segments(sents_view(sentences@), cuts@),
{
    let ghost sv = sents_view(sentences@);
    let n = sentences.len();
    let mut segments: Vec<(String, usize, usize)> = Vec::new();
    let mut seg_start: usize = 0;
    let mut k: usize = 0;
    proof {
        assert(cuts@.take(0) =~= Seq::<usize>::empty());
        assert(pieces_view(segments@) =~= Seq::<(Seq<char>, int, int)>::empty());
    }
    while k < cuts.len()
        invariant
            sv == sents_view(sentences@),
            n == sv.len(),
            sents_fit_usize(sv),
            k <= cuts@.len(),
            (pieces_view(segments@), seg_start as int) == cut_fold(sv, cuts@.take(k as int)),
        decreases cuts.len() - k,
    {
        let c = cuts[k];
        proof {
            assert(cuts@.take(k + 1).drop_last() =~= cuts@.take(k as int));
            assert(cuts@.take(k + 1).last() == c);
            lemma_cut_fold_bound(sv, cuts@.take(k as int));
        }
        if c >= seg_start && c < n {
            push_segment(&mut segments, sentences, seg_start, c + 1);
            seg_start = c + 1;
        }
        k = k + 1;
    }
    proof {
        assert(cuts@.take(cuts@.len() as int) =~= cuts@);
    }
    if seg_start < n {
        push_segment(&mut segments, sentences, seg_start, n);
    }
    segments
}

/// A segment that fits in `max` becomes one chunk marked as coming from this
/// strategy; a longer one is re-split into its sentences (offsets shifted to
/// the segment's start), which are packed into chunks of at most `max`
/// characters as the semantic strategy packs them.
pub open spec fn enforce_step(out: Seq<ChunkSpec>, seg: (Seq<char>, int, int), max: int) -> Seq<ChunkSpec> {
    if seg.0.len() <= max {
        out.push(ChunkSpec { text: seg.0, start: seg.1, end: seg.2, index: out.len() as int, meta: MetaSpec::Agentic })
    } else {
        accumulate_spec(offset_sents(sentences_of(seg.0), seg.1), out, max)
    }
}

pub open spec fn enforce_fold(segs: Seq<(Seq<char>, int, int)>, max: int) -> Seq<ChunkSpec>
    decreases segs.len(),
{
    if segs.len() == 0 {
        Seq::empty()
    } else {
        enforce_step(enforce_fold(segs.drop_last(), max), segs.last(), max)
    }
}

/// Each segment's start plus its length fits in `usize`.
pub open spec fn pieces_fit(v: Seq<(Seq<char>, int, int)>) -> bool {
    forall|i: int| 0 <= i < v.len() ==> 0 <= (#[trigger] v[i]).1 && v[i].1 + v[i].0.len() <= usize::MAX && 0 <= v[i].2
        <= usize::MAX
}

/// Bounds the segments by `max_size` characters (`enforce_fold`): the model's
/// cuts are only advice.
pub fn enforce_max_size(segments: Vec<(String, usize, usize)>, max_size: usize) -> (r: Vec<ChunkResult>)
    requires
        pieces_fit(pieces_view(segments@)),
    ensures
        chunks_view(r@) == enforce_fold(pieces_view(segments@), max_size as int),
{
    let ghost pv = pieces_view(segments@);
    let ghost bound: int = usize::MAX as int;
    let mut chunks: Vec<RawChunk> = Vec::new();
    let mut k: usize = 0;
    proof {
        assert(pv.take(0) =~= Seq::<(Seq<char>, int, int)>::empty());
        assert(raw_view(chunks@) =~= Seq::<ChunkSpec>::empty());
    }
    while k < segments.len()
        invariant
            pv == pieces_view(segments@),
            pieces_fit(pv),
            bound == usize::MAX,
            k <= pv.len(),
            chunks_fit(raw_view(chunks@), bound),
            raw_view(chunks@) == enforce_fold(pv.take(k as int), max_size as int),
        decreases segments.len() - k,
    {
        let seg = &segments[k];
        proof {
            assert(pv.take(k + 1).drop_last() =~= pv.take(k as int));
            assert(pv.take(k + 1).last() == pv[k as int]);
            assert(pv[k as int] == piece_view(segments@[k as int]));
        }
        let text = chars_of(&seg.0);
        if text.len() <= max_size {
            let c = RawChunk { text, start: seg.1, end: seg.2, index: chunks.len(), metadata: ChunkMetadata::Agentic };
            proof {
                lemma_raw_view_push(chunks@, c);
                assert forall|i: int| 0 <= i < raw_view(chunks@).len() + 1 implies 0 <= (#[trigger] raw_view(chunks@).push(c@)[i]).start
                    && raw_view(chunks@).push(c@)[i].start + raw_view(chunks@).push(c@)[i].text.len() <= bound
                    && raw_view(chunks@).push(c@)[i].end <= bound by {
                    if i < raw_view(chunks@).len() {
                        assert(raw_view(chunks@).push(c@)[i] == raw_view(chunks@)[i]);
                    }
                }
            }
            chunks.push(c);
        } else {
            let sents = split_sentence_chars(&text);
            proof {
                lemma_sentences_ok(text@, 0, false);
            }
            let shifted = offset_sentences(&sents, seg.1, Ghost(text@.len() as int));
            proof {
                let sv = sents_view(shifted@);
                assert forall|i: int| 0 <= i < sv.len() implies 0 <= (#[trigger] sv[i]).start && sv[i].text.len() >= 1
                    && sv[i].start + sv[i].text.len() <= bound by {}
            }
            accumulate_sentences(&mut chunks, &shifted, max_size, Ghost(bound));
        }
        k = k + 1;
    }
    proof {
        assert(pv.take(pv.len() as int) =~= pv);
    }
    finish_chunks(chunks)
}

/// Merges a chunk into the one before it when that one has fewer than
/// `max / 4` characters and the two, joined by a space, fit in `max`.
pub open spec fn tiny_step(acc: Seq<ChunkSpec>, c: ChunkSpec, max: int) -> Seq<ChunkSpec> {
    if acc.len() > 0 && acc.last().text.len() < max / 4 && acc.last().text.len() + 1 + c.text.len() <= max {
        let l = acc.last();
        acc.drop_last().push(ChunkSpec { text: l.text.push(' ') + c.text, start: l.start, end: c.end, index: l.index, meta: l.meta })
    } else {
        acc.push(c)
    }
}

pub open spec fn tiny_fold(cs: Seq<ChunkSpec>, max: int) -> Seq<ChunkSpec>
    decreases cs.len(),
{
    if cs.len() == 0 {
        Seq::empty()
    } else {
        tiny_step(tiny_fold(cs.drop_last(), max), cs.last(), max)
    }
}

/// The chunks with each `index` set to its position.
pub open spec fn reindexed(v: Seq<ChunkSpec>) -> Seq<ChunkSpec> {
    Seq::new(v.len(), |i: int| ChunkSpec { text: v[i].text, start: v[i].start, end: v[i].end, index: i, meta: v[i].meta })
}

/// Merges too small chunks into the chunk before them (`tiny_fold`), then
/// numbers the chunks again.
pub fn merge_tiny(chunks: Vec<ChunkResult>, max_size: usize) -> (r: Vec<ChunkResult>)
    ensures
        chunks_view(r@) == reindexed(tiny_fold(chunks_view(chunks@), max_size as int)),
{
    let ghost cv = chunks_view(chunks@);
    let mut merged: Vec<RawChunk> = Vec::new();
    let mut k: usize = 0;
    proof {
        assert(cv.take(0) =~= Seq::<ChunkSpec>::empty());
        assert(raw_view(merged@) =~= Seq::<ChunkSpec>::empty());
    }
    while k < chunks.len()
        invariant
            cv == chunks_view(chunks@),
            k <= cv.len(),
            raw_view(merged@) == tiny_fold(cv.take(k as int), max_size as int),
        decreases chunks.len() - k,
    {
        let c = &chunks[k];
        proof {
            assert(cv.take(k + 1).drop_last() =~= cv.take(k as int));
            assert(cv.take(k + 1).last() == cv[k as int]);
            assert(cv[k as int] == chunks@[k as int]@);
        }
        let ctext = chars_of(&c.text);
        let n = merged.len();
        let mut joined = false;
        if n > 0 {
            let a = merged[n - 1].text.len();
            let b = ctext.len();
            if a < max_size / 4 && b <= max_size - 1 - a {
                let ghost before = merged@;
                let mut last = merged.pop().unwrap();
                proof {
                    assert(before == merged@.push(last));
                    assert(raw_view(before).drop_last() =~= raw_view(merged@));
                    assert(raw_view(before).last() == last@);
                }
                last.text.push(' ');
                append_chars(&mut last.text, &ctext);
                last.end = c.end;
                proof {
                    lemma_raw_view_push(merged@, last);
                }
                merged.push(last);
                joined = true;
            }
        }
        if !joined {
            let m = copy_metadata(&c.metadata);
            let rc = RawChunk { text: ctext, start: c.start, end: c.end, index: c.index, metadata: m };
            proof {
                lemma_raw_view_push(merged@, rc);
            }
            merged.push(rc);
        }
        k = k + 1;
    }
    proof {
        assert(cv.take(cv.len() as int) =~= cv);
    }
    let ghost mv = raw_view(merged@);
    let mut out: Vec<ChunkResult> = Vec::new();
    let mut i: usize = 0;
    while i < merged.len()
        invariant
            mv == raw_view(merged@),
            i <= mv.len(),
            chunks_view(out@) == reindexed(mv).take(i as int),
        decreases merged.len() - i,
    {
        let m = &merged[i];
        assert(mv[i as int] == m@);
        let r = ChunkResult { text: string_of(&m.text), start: m.start, end: m.end, index: i, metadata: copy_metadata(&m.metadata) };
        let ghost before = out@;
        out.push(r);
        proof {
            assert(chunks_view(out@) =~= chunks_view(before).push(r@));
            assert(reindexed(mv).take(i + 1) =~= reindexed(mv).take(i as int).push(r@));
        }
        i = i + 1;
    }
    assert(reindexed(mv).take(mv.len() as int) =~= reindexed(mv));
    out
}

/// The most characters an analysis window holds.
pub const WINDOW_MAX_CHARS: usize = 4000;

/// The number of characters of all the sentences.
pub open spec fn total_len(ss: Seq<SentenceSpec>) -> int
    decreases ss.len(),
{
    if ss.len() == 0 {
        0
    } else {
        total_len(ss.drop_last()) + ss.last().text.len()
    }
}

/// A text of at most two sentences, or of at most `max` characters of
/// sentences, is not worth asking a model about.
pub open spec fn needs_no_model(ss: Seq<SentenceSpec>, max: int) -> bool {
    ss.len() <= 2 || total_len(ss) <= max
}

/// Such a text becomes one chunk: the trimmed text, from offset 0 to the
/// text's end; nothing when it is blank.
pub open spec fn whole_text_chunks(t: Seq<char>) -> Seq<ChunkSpec> {
    let tr = trim(t);
    if tr.len() == 0 {
        Seq::empty()
    } else {
        seq![ChunkSpec { text: tr, start: 0, end: t.len() as int, index: 0, meta: MetaSpec::Agentic }]
    }
}

proof fn lemma_total_len_prefix(ss: Seq<SentenceSpec>, k: int)
    requires
        0 <= k <= ss.len(),
    ensures
        total_len(ss.take(k)) <= total_len(ss),
        total_len(ss.take(k)) >= 0,
    decreases ss.len() - k,
{
    lemma_total_len_nonneg(ss.take(k));
    if k < ss.len() {
        lemma_total_len_prefix(ss, k + 1);
        assert(ss.take(k + 1).drop_last() =~= ss.take(k));
    } else {
        assert(ss.take(k) =~= ss);
    }
}

proof fn lemma_total_len_nonneg(ss: Seq<SentenceSpec>)
    ensures
        total_len(ss) >= 0,
    decreases ss.len(),
{
    if ss.len() > 0 {
        lemma_total_len_nonneg(ss.drop_last());
    }
}

/// Whether the sentences hold at most `max` characters (`total_len`).
fn total_at_most(sentences: &Vec<Sentence>, max: usize) -> (r: bool)
    ensures
        r == (total_len(sents_view(sentences@)) <= max),
{
    let ghost sv = sents_view(sentences@);
    let mut total: usize = 0;
    let mut k: usize = 0;
    proof {
        assert(sv.take(0) =~= Seq::<SentenceSpec>::empty());
    }
    while k < sentences.len()
        invariant
            sv == sents_view(sentences@),
            k <= sv.len(),
            total == total_len(sv.take(k as int)),
            total <= max,
        decreases sentences.len() - k,
    {
        let l = sentences[k].text.len();
        proof {
            assert(sv[k as int] == sentences@[k as int]@);
            assert(sv.take(k + 1).drop_last() =~= sv.take(k as int));
        }
        if l > max - total {
            proof {
                lemma_total_len_prefix(sv, k + 1);
            }
            return false;
        }
        total = total + l;
        k = k + 1;
    }
    assert(sv.take(sv.len() as int) =~= sv);
    true
}

/// The state of a split that asks a model window by window.
pub struct AgenticSession {
    sentences: Vec<Sentence>,
    template: String,
    max_chunk_size: usize,
    window_size: usize,
    pos: usize,
    stop: usize,
    cuts: Vec<usize>,
}

/// A session as a mathematical value: the sentences, the prompt template, the
/// size bound, the window size, the first sentence not yet analysed, the end of
/// the window the model is being asked about (`stop == pos` when none is), and
/// the cuts found so far (0-based sentence indices, a cut after each).
pub struct SessionView {
    pub sents: Seq<SentenceSpec>,
    pub template: Seq<char>,
    pub max: int,
    pub ws: int,
    pub pos: int,
    pub stop: int,
    pub cuts: Seq<usize>,
}

impl View for AgenticSession {
    type V = SessionView;

    closed spec fn view(&self) -> SessionView {
        SessionView {
            sents: sents_view(self.sentences@),
            template: self.template@,
            max: self.max_chunk_size as int,
            ws: self.window_size as int,
            pos: self.pos as int,
            stop: self.stop as int,
            cuts: self.cuts@,
        }
    }
}

/// A session is consistent: its sentences lie within `usize` and are fewer than
/// `usize::MAX`; the position and the window end lie within the sentences; the
/// cuts are increasing and all before the position.
pub open spec fn session_ok(v: SessionView) -> bool {
    &&& sents_ok(v.sents, 0, usize::MAX as int)
    &&& v.sents.len() < usize::MAX
    &&& 0 <= v.pos <= v.stop <= v.sents.len()
    &&& (v.stop > v.pos ==> v.stop >= v.pos + 2)
    &&& strictly_increasing(v.cuts)
    &&& forall|i: int| 0 <= i < v.cuts.len() ==> #[trigger] v.cuts[i] < v.pos
    &&& 0 <= v.max <= usize::MAX
    &&& 0 <= v.ws <= usize::MAX
}

/// The first window start at or after `pos` whose window holds two sentences
/// or more; windows of one sentence are passed over.
pub open spec fn skip_single(ss: Seq<SentenceSpec>, pos: int, ws: int) -> int
    decreases ss.len() - pos,
{
    if 0 <= pos < ss.len() {
        let e = window_end_spec(ss, pos, ws, WINDOW_MAX_CHARS as int);
        proof {
            lemma_window_progress(ss, pos, ws, WINDOW_MAX_CHARS as int);
        }
        if e - pos <= 1 {
            skip_single(ss, e, ws)
        } else {
            pos
        }
    } else {
        pos
    }
}

pub proof fn lemma_window_progress(ss: Seq<SentenceSpec>, start: int, ws: int, max: int)
    requires
        0 <= start < ss.len(),
    ensures
        start < window_end_spec(ss, start, ws, max) <= ss.len(),
{
    lemma_grow_window(ss, start, start, 0, ws, max);
}

proof fn lemma_skip_single(ss: Seq<SentenceSpec>, pos: int, ws: int)
    requires
        0 <= pos <= ss.len(),
    ensures
        pos <= skip_single(ss, pos, ws) <= ss.len(),
        skip_single(ss, pos, ws) < ss.len() ==> window_end_spec(ss, skip_single(ss, pos, ws), ws, WINDOW_MAX_CHARS as int)
            >= skip_single(ss, pos, ws) + 2,
    decreases ss.len() - pos,
{
    if pos < ss.len() {
        lemma_window_progress(ss, pos, ws, WINDOW_MAX_CHARS as int);
        let e = window_end_spec(ss, pos, ws, WINDOW_MAX_CHARS as int);
        if e - pos <= 1 {
            lemma_skip_single(ss, e, ws);
        }
    }
}

/// The session once the model's split points `local` (1-based within the
/// window) are taken: no points move past the window; otherwise each point
/// becomes a cut and the next window starts after the last one.
pub open spec fn after_points(v: SessionView, local: Seq<usize>) -> SessionView {
    if local.len() == 0 {
        SessionView { pos: v.stop, cuts: v.cuts, ..v }
    } else {
        SessionView {
            pos: v.pos + local.last(),
            stop: v.pos + local.last(),
            cuts: v.cuts + local.map_values(|k: usize| (v.pos + k - 1) as usize),
            ..v
        }
    }
}

/// At offset `i` of `lines` stands the label `d` (between brackets, then a
/// space) followed by `text`.
pub open spec fn labelled_at(lines: Seq<char>, i: int, d: Seq<char>, text: Seq<char>) -> bool {
    let line = seq!['['] + d + seq![']', ' '] + text;
    0 <= i && i + line.len() <= lines.len() && lines.subrange(i, i + line.len()) == line
}

proof fn lemma_numbered_prefix(w: Seq<SentenceSpec>, k: int)
    requires
        0 <= k <= w.len(),
    ensures
        numbered_lines(w.take(k)).len() <= numbered_lines(w).len(),
        numbered_lines(w).subrange(0, numbered_lines(w.take(k)).len() as int) == numbered_lines(w.take(k)),
    decreases w.len(),
{
    if k == w.len() {
        assert(w.take(k) =~= w);
        assert(numbered_lines(w).subrange(0, numbered_lines(w).len() as int) =~= numbered_lines(w));
    } else {
        let pre = w.drop_last();
        lemma_numbered_prefix(pre, k);
        assert(pre.take(k) =~= w.take(k));
        let a = numbered_lines(pre);
        let b = numbered_lines(w.take(k));
        assert(numbered_lines(w) == a + numbered_line(w.len() - 1, w.last().text));
        assert(numbered_lines(w).subrange(0, b.len() as int) =~= a.subrange(0, b.len() as int));
    }
}

/// Law: the prompt's numbered lines label each window sentence with a number
/// which, when the model gives it back as a split point, cuts the text right
/// after that very sentence: window sentence `j` (0-based) of the window
/// `[pos, stop)` carries a label of digits whose value becomes the cut
/// after sentence `pos + j`.
pub proof fn lemma_prompt_labels_match_cuts(v: SessionView, j: int)
    requires
        session_ok(v),
        0 <= j < v.stop - v.pos,
    ensures
        ({
            let w = v.sents.subrange(v.pos, v.stop);
            exists|i: int, d: Seq<char>|
                #[trigger] labelled_at(numbered_lines(w), i, d, w[j].text) && d.len() >= 1 && (forall|c: int|
                    0 <= c < d.len() ==> is_digit(#[trigger] d[c])) && after_points(v, seq![digits_value(d) as usize]).cuts
                    == v.cuts.push((v.pos + j) as usize)
        }),
{
    let w = v.sents.subrange(v.pos, v.stop);
    let d = decimal((j + 1) as nat);
    lemma_decimal_roundtrip((j + 1) as nat);
    lemma_numbered_prefix(w, j + 1);
    let a = numbered_lines(w.take(j));
    let b = numbered_lines(w.take(j + 1));
    assert(w.take(j + 1).drop_last() =~= w.take(j));
    assert(w.take(j + 1).last() == w[j]);
    assert(b == a + numbered_line(j, w[j].text));
    let line = seq!['['] + d + seq![']', ' '] + w[j].text;
    assert(numbered_line(j, w[j].text) == line + seq!['\n']);
    let all = numbered_lines(w);
    assert(all.subrange(a.len() as int, (a.len() + line.len()) as int) =~= b.subrange(a.len() as int, (a.len() + line.len()) as int));
    assert(b.subrange(a.len() as int, (a.len() + line.len()) as int) =~= line);
    assert(labelled_at(all, a.len() as int, d, w[j].text));
    let m = digits_value(d) as usize;
    assert(m as int == j + 1);
    assert(seq![m].map_values(|k: usize| (v.pos + k - 1) as usize) =~= seq![(v.pos + j) as usize]);
}

/// What a session yields when the model has been asked about every window:
/// the sentences grouped at the cuts, bounded in size, small chunks merged,
/// all numbered.
pub open spec fn session_chunks(v: SessionView) -> Seq<ChunkSpec> {
    reindexed(tiny_fold(enforce_fold(grouped_segments(v.sents, v.cuts), v.max), v.max))
}

/// A request to the model about one window: the model, the prompt, and the
/// options the split asks for.
pub struct WindowRequest {
    pub model: String,
    pub prompt: String,
    /// Whether the answer is streamed.
    pub stream: bool,
    /// Whether the model may think before answering.
    pub think: bool,
    /// The sampling temperature, in thousandths.
    pub temperature_milli: u32,
    /// The most tokens the answer may have.
    pub num_predict: u32,
}

/// The options of a window request: to `model`, not streamed, without
/// thinking, at temperature 0.1 and with at most 256 tokens.
pub open spec fn window_request_ok(q: WindowRequest, model: Seq<char>) -> bool {
    &&& q.model@ == model
    &&& !q.stream
    &&& !q.think
    &&& q.temperature_milli == 100
    &&& q.num_predict == 256
}

impl WindowRequest {
    /// The request about a window with `prompt`, to `model`
    /// (`window_request_ok`).
    pub fn for_window(model: &str, prompt: String) -> (r: WindowRequest)
        ensures
            window_request_ok(r, model@),
            r.prompt@ == prompt@,
    {
        WindowRequest { model: owned(model), prompt, stream: false, think: false, temperature_milli: 100, num_predict: 256 }
    }
}

/// How a split with the model begins: done at once, or with windows to ask about.
pub enum AgenticStart {
    Done(Vec<ChunkResult>),
    Pending(AgenticSession),
}

/// How a split with the model begins on `t`: a text without sentences gives
/// no chunks; one that needs no model (`needs_no_model`) gives
/// `whole_text_chunks`; any other starts a session at the first sentence with
/// no cuts.
pub open spec fn started(r: AgenticStart, t: Seq<char>, template: Seq<char>, max: int, ws: int) -> bool {
    let ss = sentences_of(t);
    &&& ss.len() == 0 ==> (r matches AgenticStart::Done(v) && v@.len() == 0)
    &&& ss.len() > 0 && needs_no_model(ss, max) ==> (r matches AgenticStart::Done(v) && chunks_view(v@) == whole_text_chunks(t))
    &&& ss.len() > 0 && !needs_no_model(ss, max) ==> (r matches AgenticStart::Pending(s) && session_ok(s@) && s@ == (SessionView {
        sents: ss,
        template,
        max,
        ws,
        pos: 0,
        stop: 0,
        cuts: Seq::empty(),
    }))
}

/// Begins a split with the model (effective size bound and window size given).
/// A text without sentences gives no chunks; one that needs no model
/// (`needs_no_model`) gives `whole_text_chunks`; any other starts a session at
/// the first sentence with no cuts.
pub fn start_agentic(text: &str, template: &str, max_chunk_size: usize, window_size: usize) -> (r: AgenticStart)
    requires
        text@.len() < usize::MAX,
    ensures
        started(r, text@, template@, max_chunk_size as int, window_size as int),
{
    let chars = chars_of(text);
    let sentences = split_sentence_chars(&chars);
    proof {
        lemma_sentences_ok(chars@, 0, false);
    }
    if sentences.len() == 0 {
        return AgenticStart::Done(Vec::new());
    }
    if sentences.len() <= 2 || total_at_most(&sentences, max_chunk_size) {
        let tr = trimmed(&chars);
        if tr.len() == 0 {
            let v: Vec<ChunkResult> = Vec::new();
            assert(chunks_view(v@) =~= whole_text_chunks(text@));
            return AgenticStart::Done(v);
        }
        let c = ChunkResult { text: string_of(&tr), start: 0, end: chars.len(), index: 0, metadata: ChunkMetadata::Agentic };
        let mut v: Vec<ChunkResult> = Vec::new();
        v.push(c);
        assert(chunks_view(v@) =~= whole_text_chunks(text@));
        return AgenticStart::Done(v);
    }
    let t = string_of(&chars_of(template));
    let s = AgenticSession {
        sentences,
        template: t,
        max_chunk_size,
        window_size,
        pos: 0,
        stop: 0,
        cuts: Vec::new(),
    };
    proof {
        lemma_sentences_count(chars@);
    }
    assert(s@.cuts =~= Seq::<usize>::empty());
    AgenticStart::Pending(s)
}

proof fn lemma_sentences_count(t: Seq<char>)
    ensures
        sentences_of(t).len() <= t.len(),
{
    lemma_sentences_ok(t, 0, false);
    let ss = sentences_of(t);
    if ss.len() > t.len() {
        lemma_sents_count_bound(ss, t.len() as int);
    }
}

proof fn lemma_start_at_least_index(ss: Seq<SentenceSpec>, hi: int, k: int)
    requires
        sents_ok(ss, 0, hi),
        0 <= k < ss.len(),
    ensures
        ss[k].start >= k,
    decreases k,
{
    if k > 0 {
        lemma_start_at_least_index(ss, hi, k - 1);
        assert(ss[k - 1].start + ss[k - 1].text.len() <= ss[k].start);
    } else {
        assert(0 <= ss[0].start);
    }
}

proof fn lemma_sents_count_bound(ss: Seq<SentenceSpec>, hi: int)
    requires
        sents_ok(ss, 0, hi),
        hi >= 0,
    ensures
        ss.len() <= hi,
{
    if ss.len() > 0 {
        lemma_start_at_least_index(ss, hi, ss.len() - 1);
        assert(ss[ss.len() - 1].start + ss[ss.len() - 1].text.len() <= hi);
    }
}

/// The copy of `sentences[a..b]`.
fn copy_window(sentences: &Vec<Sentence>, a: usize, b: usize) -> (r: Vec<Sentence>)
    requires
        a <= b <= sentences@.len(),
    ensures
        sents_view(r@) == sents_view(sentences@).subrange(a as int, b as int),
{
    let ghost sv = sents_view(sentences@);
    let mut r: Vec<Sentence> = Vec::new();
    let mut k = a;
    while k < b
        invariant
            sv == sents_view(sentences@),
            a <= k <= b <= sv.len(),
            sents_view(r@) == sv.subrange(a as int, k as int),
        decreases b - k,
    {
        let s = &sentences[k];
        let t = crate::text::slice_to_vec(&s.text, 0, s.text.len());
        assert(s.text@.subrange(0, s.text@.len() as int) =~= s.text@);
        let c = Sentence { text: t, start: s.start, after_paragraph_break: s.after_paragraph_break };
        let ghost before = r@;
        r.push(c);
        proof {
            assert(sv[k as int] == s@);
            assert(sents_view(r@) =~= sents_view(before).push(c@));
            assert(sv.subrange(a as int, k + 1) =~= sv.subrange(a as int, k as int).push(sv[k as int]));
        }
        k = k + 1;
    }
    r
}

impl AgenticSession {
    /// Whether a window has been handed out and awaits the model's answer.
    pub fn awaiting(&self) -> (r: bool)
        ensures
            r == (self@.stop > self@.pos),
    {
        self.stop > self.pos
    }

    /// Moves to the next window of two sentences or more (`skip_single`) and
    /// returns the prompt for it (`agentic_prompt`), or `None` when every
    /// window has been analysed.
    pub fn next_prompt(&mut self) -> (r: Option<String>)
        requires
            session_ok(old(self)@),
        ensures
            session_ok(final(self)@),
            ({
                let v = old(self)@;
                let p = skip_single(v.sents, v.pos, v.ws);
                let e = window_end_spec(v.sents, p, v.ws, WINDOW_MAX_CHARS as int);
                &&& final(self)@.pos == p
                &&& final(self)@.sents == v.sents && final(self)@.template == v.template
                &&& final(self)@.max == v.max && final(self)@.ws == v.ws && final(self)@.cuts == v.cuts
                &&& p < v.sents.len() ==> (final(self)@.stop == e && (r matches Some(prompt) && prompt@ == agentic_prompt(
                    v.template,
                    v.sents.subrange(p, e),
                    v.max as nat,
                )))
                &&& p >= v.sents.len() ==> final(self)@.stop == p && r is None
            }),
    {
        let ghost v = self@;
        let n = self.sentences.len();
        let mut i = self.pos;
        proof {
            lemma_skip_single(v.sents, v.pos, v.ws);
        }
        while i < n
            invariant
                n == v.sents.len(),
                v.pos <= i <= n,
                skip_single(v.sents, i as int, v.ws) == skip_single(v.sents, v.pos, v.ws),
                self@ == v,
            ensures
                v.pos <= i <= n,
                skip_single(v.sents, i as int, v.ws) == skip_single(v.sents, v.pos, v.ws),
                skip_single(v.sents, i as int, v.ws) == i,
                self@ == v,
            decreases n - i,
        {
            let e = window_end(self.sentences.as_slice(), i, self.window_size, WINDOW_MAX_CHARS);
            if e - i <= 1 {
                i = e;
            } else {
                break;
            }
        }
        proof {
            lemma_skip_single(v.sents, i as int, v.ws);
        }
        self.pos = i;
        if i >= n {
            self.stop = i;
            return None;
        }
        let e = window_end(self.sentences.as_slice(), i, self.window_size, WINDOW_MAX_CHARS);
        self.stop = e;
        let window = copy_window(&self.sentences, i, e);
        assert(sents_view(window@).len() == window@.len());
        let prompt = build_agentic_prompt(self.template.as_str(), window.as_slice(), self.max_chunk_size);
        Some(prompt)
    }

    /// Takes the model's split points for the awaited window (`after_points`):
    /// the position always moves forward.
    pub fn accept_points(&mut self, local: &[usize])
        requires
            session_ok(old(self)@),
            old(self)@.stop > old(self)@.pos,
            strictly_increasing(local@),
            forall|i: int| 0 <= i < local@.len() ==> 1 <= #[trigger] local@[i] < old(self)@.stop - old(self)@.pos,
        ensures
            session_ok(final(self)@),
            final(self)@ == after_points(old(self)@, local@),
            final(self)@.pos > old(self)@.pos,
            final(self)@.stop == final(self)@.pos,
    {
        let ghost v = self@;
        if local.len() == 0 {
            self.pos = self.stop;
            return;
        }
        let base = self.pos;
        let mut k: usize = 0;
        while k < local.len()
            invariant
                v == old(self)@,
                session_ok(v),
                v.stop > v.pos,
                base == v.pos,
                strictly_increasing(local@),
                forall|i: int| 0 <= i < local@.len() ==> 1 <= #[trigger] local@[i] < v.stop - v.pos,
                k <= local@.len(),
                self@ == (SessionView { cuts: v.cuts + local@.take(k as int).map_values(|x: usize| (v.pos + x - 1) as usize), ..v }),
            decreases local.len() - k,
        {
            let x = local[k];
            assert(1 <= local@[k as int] < v.stop - v.pos);
            let ghost before = self.cuts@;
            self.cuts.push(base + x - 1);
            proof {
                assert(local@.take(k + 1).map_values(|x: usize| (v.pos + x - 1) as usize) =~= local@.take(k as int).map_values(
                    |x: usize| (v.pos + x - 1) as usize,
                ).push((v.pos + x - 1) as usize));
            }
            k = k + 1;
        }
        proof {
            assert(local@.take(local@.len() as int) =~= local@);
        }
        let last = local[local.len() - 1];
        self.pos = base + last;
        self.stop = base + last;
        proof {
            let f = self@;
            let m = local@.map_values(|x: usize| (v.pos + x - 1) as usize);
            assert forall|a: int, b: int| 0 <= a < b < f.cuts.len() implies f.cuts[a] < f.cuts[b] by {
                if b < v.cuts.len() {
                } else if a < v.cuts.len() {
                    assert(f.cuts[b] == m[b - v.cuts.len()]);
                    assert(local@[b - v.cuts.len()] >= 1);
                } else {
                    assert(f.cuts[b] == m[b - v.cuts.len()]);
                    assert(f.cuts[a] == m[a - v.cuts.len()]);
                    assert(local@[a - v.cuts.len()] < local@[b - v.cuts.len()]);
                }
            }
            assert forall|i: int| 0 <= i < f.cuts.len() implies #[trigger] f.cuts[i] < f.pos by {
                if i >= v.cuts.len() {
                    assert(f.cuts[i] == m[i - v.cuts.len()]);
                    let j = i - v.cuts.len();
                    if j < local@.len() - 1 {
                        assert(local@[j] < local@[local@.len() - 1]);
                    }
                }
            }
        }
    }

    /// Moves to the next window as `next_prompt` does and returns the request
    /// to send the model about it (`WindowRequest::for_window`), or `None`
    /// when every window has been analysed.
    pub fn next_request(&mut self, model: &str) -> (r: Option<WindowRequest>)
        requires
            session_ok(old(self)@),
        ensures
            session_ok(final(self)@),
            ({
                let v = old(self)@;
                let p = skip_single(v.sents, v.pos, v.ws);
                let e = window_end_spec(v.sents, p, v.ws, WINDOW_MAX_CHARS as int);
                &&& final(self)@.pos == p
                &&& final(self)@.sents == v.sents && final(self)@.template == v.template
                &&& final(self)@.max == v.max && final(self)@.ws == v.ws && final(self)@.cuts == v.cuts
                &&& p < v.sents.len() ==> (final(self)@.stop == e && (r matches Some(q) && q.prompt@ == agentic_prompt(
                    v.template,
                    v.sents.subrange(p, e),
                    v.max as nat,
                ) && window_request_ok(q, model@)))
                &&& p >= v.sents.len() ==> final(self)@.stop == p && r is None
            }),
    {
        match self.next_prompt() {
            Some(prompt) => Some(WindowRequest::for_window(model, prompt)),
            None => None,
        }
    }

    /// Takes the model's reply about the awaited window: its split points
    /// (`is_split_points` of `split_point_candidates`) are taken as
    /// `after_points` says, and the position moves forward.
    pub fn accept_reply(&mut self, reply: &str)
        requires
            session_ok(old(self)@),
            old(self)@.stop > old(self)@.pos,
        ensures
            session_ok(final(self)@),
            final(self)@.pos > old(self)@.pos,
            exists|local: Seq<usize>|
                is_split_points(local, split_point_candidates(reply@), old(self)@.stop - old(self)@.pos)
                    && final(self)@ == after_points(old(self)@, local),
    {
        let wl = self.stop - self.pos;
        let local = parse_split_points(reply, wl);
        assert forall|i: int| 0 <= i < local@.len() implies 1 <= #[trigger] local@[i] < wl by {
            assert(local@.contains(local@[i]));
        }
        self.accept_points(local.as_slice());
    }

    /// The chunks of the text once every window has been analysed
    /// (`session_chunks`).
    pub fn finish(&self) -> (r: Vec<ChunkResult>)
        requires
            session_ok(self@),
        ensures
            chunks_view(r@) == session_chunks(self@),
    {
        proof {
            lemma_grouped_fit(self@.sents, self@.cuts);
        }
        let segments = group_by_cuts(self.sentences.as_slice(), self.cuts.as_slice());
        let chunks = enforce_max_size(segments, self.max_chunk_size);
        merge_tiny(chunks, self.max_chunk_size)
    }
}

proof fn lemma_join_len(ss: Seq<SentenceSpec>, a: int, b: int, hi: int)
    requires
        sents_ok(ss, 0, hi),
        0 <= a < b <= ss.len(),
    ensures
        join_texts(ss.subrange(a, b)).len() <= ss[b - 1].start + ss[b - 1].text.len() - ss[a].start,
    decreases b - a,
{
    let whole = ss.subrange(a, b);
    assert(whole.drop_last() =~= ss.subrange(a, b - 1));
    assert(whole.last() == ss[b - 1]);
    assert(join_texts(whole) == join_texts(ss.subrange(a, b - 1)) + ss[b - 1].text);
    if b - 1 > a {
        lemma_join_len(ss, a, b - 1, hi);
        assert(ss[b - 2].start + ss[b - 2].text.len() <= ss[b - 1].start);
    } else {
        assert(ss.subrange(a, b - 1) =~= Seq::<SentenceSpec>::empty());
        assert(join_texts(ss.subrange(a, b - 1)).len() == 0);
    }
}

proof fn lemma_push_group_fit(out: Seq<(Seq<char>, int, int)>, ss: Seq<SentenceSpec>, a: int, b: int)
    requires
        sents_ok(ss, 0, usize::MAX as int),
        0 <= a < b <= ss.len(),
        pieces_fit(out),
    ensures
        pieces_fit(push_group(out, ss, a, b)),
{
    lemma_join_len(ss, a, b, usize::MAX as int);
    crate::text::lemma_trim_bounds(join_texts(ss.subrange(a, b)));
    let r = push_group(out, ss, a, b);
    assert forall|i: int| 0 <= i < r.len() implies 0 <= (#[trigger] r[i]).1 && r[i].1 + r[i].0.len() <= usize::MAX && 0
        <= r[i].2 <= usize::MAX by {
        if i < out.len() {
            assert(r[i] == out[i]);
        }
    }
}

proof fn lemma_cut_fold_fit(ss: Seq<SentenceSpec>, cuts: Seq<usize>)
    requires
        sents_ok(ss, 0, usize::MAX as int),
    ensures
        pieces_fit(cut_fold(ss, cuts).0),
        0 <= cut_fold(ss, cuts).1 <= ss.len(),
    decreases cuts.len(),
{
    if cuts.len() > 0 {
        lemma_cut_fold_fit(ss, cuts.drop_last());
        let st = cut_fold(ss, cuts.drop_last());
        let c = cuts.last() as int;
        if !(c < st.1 || c >= ss.len()) {
            lemma_push_group_fit(st.0, ss, st.1, c + 1);
        }
    }
}

proof fn lemma_grouped_fit(ss: Seq<SentenceSpec>, cuts: Seq<usize>)
    requires
        sents_ok(ss, 0, usize::MAX as int),
    ensures
        pieces_fit(grouped_segments(ss, cuts)),
        sents_fit_usize(ss),
{
    lemma_cut_fold_fit(ss, cuts);
    let st = cut_fold(ss, cuts);
    if st.1 < ss.len() {
        lemma_push_group_fit(st.0, ss, st.1, ss.len() as int);
    }
}

/// What to do when the model cannot be used: with fallback allowed, the
/// semantic strategy's chunks (size bound `max_chunk_size`, no overlap, groups
/// of three sentences); otherwise the error.
pub fn agentic_fallback(text: &str, max_chunk_size: usize, allow_fallback: bool, err: AppError) -> (r: Result<Vec<ChunkResult>, AppError>)
    requires
        text@.len() <= usize::MAX / 8,
    ensures
        allow_fallback ==> (r matches Ok(v) && chunks_view(v@) == crate::chunking::semantic::semantic_chunks(
            text@,
            max_chunk_size as int,
            0,
            3,
        )),
        !allow_fallback ==> r == Err::<Vec<ChunkResult>, AppError>(err),
{
    if allow_fallback {
        Ok(semantic_split(text, max_chunk_size, 0, 3))
    } else {
        Err(err)
    }
}

/// A split with the model when no model service is at hand: with fallback
/// allowed, the semantic strategy's chunks (as `agentic_fallback`); without
/// it, `OllamaNotRunning`.
pub fn agentic_without_model(text: &str, max_chunk_size: usize, allow_fallback: bool) -> (r: Result<Vec<ChunkResult>, AppError>)
    requires
        text@.len() <= usize::MAX / 8,
    ensures
        allow_fallback ==> (r matches Ok(v) && chunks_view(v@) == crate::chunking::semantic::semantic_chunks(
            text@,
            max_chunk_size as int,
            0,
            3,
        )),
        !allow_fallback ==> r == Err::<Vec<ChunkResult>, AppError>(AppError::OllamaNotRunning),
{
    agentic_fallback(text, max_chunk_size, allow_fallback, AppError::OllamaNotRunning)
}

} // verus!
