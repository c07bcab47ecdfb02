//! Semantic splitting: sentences are grouped into topic segments, small segments
//! are merged, long segments are cut at sentence boundaries, and neighbouring
//! chunks share whole sentences as overlap.
use vstd::prelude::*;
use crate::text::{append_chars, lemma_trim_bounds, trim, trimmed};
use crate::chunking::chunk::{ChunkMetadata, ChunkResult, ChunkSpec, MetaSpec, RawChunk, chunks_view, lemma_raw_view_push, raw_view};
use crate::chunking::sentences::{
    is_topic_shift, sentences_from, sentences_of, sents_view, split_sentence_chars, topic_shift,
    Sentence, SentenceSpec, lemma_piece_end,
};

verus! {

/// Sentences are well placed in a text of length `hi`: each is non-empty, lies
/// within `[lo, hi]`, and each ends before the next one starts.
pub open spec fn sents_ok(ss: Seq<SentenceSpec>, lo: int, hi: int) -> bool {
    &&& forall|k: int|
        0 <= k < ss.len() ==> lo <= (#[trigger] ss[k]).start && ss[k].text.len() >= 1 && ss[k].start
            + ss[k].text.len() <= hi
    &&& forall|k: int|
        0 <= k < ss.len() - 1 ==> (#[trigger] ss[k]).start + ss[k].text.len() <= ss[k + 1].start
}

pub proof fn lemma_sentences_ok(t: Seq<char>, p: int, b: bool)
    requires
        0 <= p,
    ensures
        sents_ok(sentences_from(t, p, b), p, t.len() as int),
    decreases t.len() - p,
{
    if p < t.len() {
        lemma_piece_end(t, p);
        let q = crate::chunking::sentences::next_stop(t, p);
        let e = crate::chunking::sentences::piece_end(t, q);
        lemma_trim_bounds(t.subrange(p, e));
        let tr = trim(t.subrange(p, e));
        if q < t.len() {
            let b2 = if tr.len() > 0 {
                crate::chunking::sentences::para_at(t, q)
            } else {
                b || crate::chunking::sentences::para_at(t, q)
            };
            lemma_sentences_ok(t, e, b2);
            let rest = sentences_from(t, e, b2);
            if tr.len() > 0 {
                let all = sentences_from(t, p, b);
                assert(all == seq![SentenceSpec { text: tr, start: p, after_break: b }] + rest);
                assert forall|k: int| 0 <= k < all.len() - 1 implies (#[trigger] all[k]).start
                    + all[k].text.len() <= all[k + 1].start by {
                    if k > 0 {
                        assert(all[k] == rest[k - 1]);
                        assert(all[k + 1] == rest[k]);
                    } else {
                        assert(all[1] == rest[0]);
                    }
                }
                assert forall|k: int| 0 <= k < all.len() implies p <= (#[trigger] all[k]).start
                    && all[k].text.len() >= 1 && all[k].start + all[k].text.len() <= t.len() by {
                    if k > 0 {
                        assert(all[k] == rest[k - 1]);
                    }
                }
            }
        }
    }
}

// ---------------------------------------------------------------- segments

/// A semantic segment: text and the offsets of its first and last sentence.
pub struct SegSpec {
    pub text: Seq<char>,
    pub start: int,
    pub end: int,
}

/// The segment being accumulated.
pub struct SegState {
    pub text: Seq<char>,
    pub start: int,
    pub end: int,
    pub short: int,
}

pub open spec fn seg_emit(st: SegState) -> SegSpec {
    SegSpec { text: trim(st.text), start: st.start, end: st.end }
}

pub open spec fn seg_reset(st: SegState) -> SegState {
    SegState { text: Seq::empty(), start: st.start, end: st.end, short: 0 }
}

/// Consumes one sentence: breaks the segment before it at a paragraph break,
/// a topic shift or when it would overflow `cs`; closes a group of `gs` short
/// sentences (under 50 characters); closes a segment that has grown past `cs`.
pub open spec fn seg_step(st: SegState, s: SentenceSpec, cs: int, gs: int) -> (SegState, Seq<SegSpec>) {
    let len = s.text.len() as int;
    let brk = s.after_break || topic_shift(s.text) || (st.text.len() + len > cs && st.text.len() > 0);
    let st1 = if brk && st.text.len() > 0 { seg_reset(st) } else { st };
    let out1: Seq<SegSpec> = if brk && st.text.len() > 0 { seq![seg_emit(st)] } else { Seq::empty() };
    let start2 = if st1.text.len() == 0 { s.start } else { st1.start };
    let text3 = st1.text + s.text + seq![' '];
    let short3 = if len < 50 { st1.short + 1 } else { 0 };
    let st3 = SegState { text: text3, start: start2, end: s.start + len, short: short3 };
    let grouped = len < 50 && short3 >= gs;
    let st4 = if grouped { seg_reset(st3) } else { st3 };
    let out4: Seq<SegSpec> = if grouped { out1.push(seg_emit(st3)) } else { out1 };
    if st4.text.len() > cs {
        (seg_reset(st4), out4.push(seg_emit(st4)))
    } else {
        (st4, out4)
    }
}

pub open spec fn seg_init() -> SegState {
    SegState { text: Seq::empty(), start: 0, end: 0, short: 0 }
}

pub open spec fn seg_fold(ss: Seq<SentenceSpec>, cs: int, gs: int) -> (SegState, Seq<SegSpec>)
    decreases ss.len(),
{
    if ss.len() == 0 {
        (seg_init(), Seq::empty())
    } else {
        let prev = seg_fold(ss.drop_last(), cs, gs);
        let step = seg_step(prev.0, ss.last(), cs, gs);
        (step.0, prev.1 + step.1)
    }
}

/// The semantic segments of a list of sentences.
pub open spec fn segments_of(ss: Seq<SentenceSpec>, cs: int, gs: int) -> Seq<SegSpec> {
    let f = seg_fold(ss, cs, gs);
    if trim(f.0.text).len() > 0 {
        f.1.push(seg_emit(f.0))
    } else {
        f.1
    }
}

/// A segment of a text.
pub struct Segment {
    pub text: Vec<char>,
    pub start: usize,
    pub end: usize,
}

impl View for Segment {
    type V = SegSpec;

    open spec fn view(&self) -> SegSpec {
        SegSpec { text: self.text@, start: self.start as int, end: self.end as int }
    }
}

pub open spec fn segs_view(v: Seq<Segment>) -> Seq<SegSpec> {
    v.map_values(|s: Segment| s@)
}

proof fn lemma_segs_view_push(v: Seq<Segment>, s: Segment)
    ensures
        segs_view(v.push(s)) == segs_view(v).push(s@),
{
    assert(segs_view(v.push(s)) =~= segs_view(v).push(s@));
}

/// Segments of a text of length `n` lie in order within it, and each text is
/// shorter than twice the span it comes from.
pub open spec fn seg_chain(v: Seq<SegSpec>, n: int) -> bool {
    &&& forall|k: int|
        0 <= k < v.len() ==> 0 <= (#[trigger] v[k]).start < v[k].end <= n && v[k].text.len() + 1 <= 2 * (
        v[k].end - v[k].start)
    &&& forall|k: int| 0 <= k < v.len() - 1 ==> (#[trigger] v[k]).end <= v[k + 1].start
}

/// End of the `k`-th sentence's text (0 before the first).
pub open spec fn prev_end(ss: Seq<SentenceSpec>, k: int) -> int {
    if k > 0 {
        ss[k - 1].start + ss[k - 1].text.len()
    } else {
        0
    }
}

pub proof fn lemma_trim_trailing_space(x: Seq<char>)
    ensures
        trim(x.push(' ')).len() <= x.len(),
{
    let s = x.push(' ');
    lemma_trim_bounds(s);
    let l = crate::text::lead_ws(s);
    crate::text::lemma_trim_start_skip(s);
    if l < s.len() {
        let u = s.skip(l as int);
        crate::text::lemma_trim_end_take(u);
        assert(u.last() == ' ');
        assert(crate::text::is_ws(' '));
        assert(crate::text::trail_ws(u) >= 1);
    }
}

proof fn lemma_chain_push(v: Seq<SegSpec>, s: SegSpec, n: int)
    requires
        seg_chain(v, n),
        0 <= s.start < s.end <= n,
        s.text.len() + 1 <= 2 * (s.end - s.start),
        v.len() > 0 ==> v.last().end <= s.start,
    ensures
        seg_chain(v.push(s), n),
{
    let w = v.push(s);
    assert forall|k: int| 0 <= k < w.len() - 1 implies (#[trigger] w[k]).end <= w[k + 1].start by {
        if k < v.len() - 1 {
            assert(w[k] == v[k] && w[k + 1] == v[k + 1]);
        }
    }
    assert forall|k: int| 0 <= k < w.len() implies 0 <= (#[trigger] w[k]).start < w[k].end <= n
        && w[k].text.len() + 1 <= 2 * (w[k].end - w[k].start) by {
        if k < v.len() {
            assert(w[k] == v[k]);
        }
    }
}

fn emit_segment(segments: &mut Vec<Segment>, seg_text: &Vec<char>, start: usize, end: usize, Ghost(n): Ghost<int>)
    requires
        seg_chain(segs_view(old(segments)@), n),
        0 <= start < end <= n,
        seg_text@.len() > 0,
        seg_text@.last() == ' ',
        seg_text@.len() <= 2 * (end - start),
        old(segments)@.len() > 0 ==> segs_view(old(segments)@).last().end <= start,
    ensures
        seg_chain(segs_view(final(segments)@), n),
        segs_view(final(segments)@) == segs_view(old(segments)@).push(
            seg_emit(SegState { text: seg_text@, start: start as int, end: end as int, short: 0 }),
        ),
{
    let s = Segment { text: trimmed(seg_text), start, end };
    proof {
        lemma_segs_view_push(segments@, s);
        assert(seg_text@ == seg_text@.drop_last().push(' '));
        lemma_trim_trailing_space(seg_text@.drop_last());
        lemma_chain_push(segs_view(segments@), s@, n);
    }
    segments.push(s);
}

/// The segment being accumulated, in executable form.
struct SegBuilder {
    text: Vec<char>,
    start: usize,
    end: usize,
    short: usize,
}

impl View for SegBuilder {
    type V = SegState;

    closed spec fn view(&self) -> SegState {
        SegState { text: self.text@, start: self.start as int, end: self.end as int, short: self.short as int }
    }
}

/// What holds of the builder and the emitted segments once every sentence
/// ending at or before `p` has been consumed.
spec fn builder_ok(b: SegState, out: Seq<SegSpec>, p: int, n: int) -> bool {
    &&& b.text.len() > 0 ==> 0 <= b.start < b.end == p && b.text.len() <= 2 * (b.end - b.start)
        && b.text.last() == ' '
    &&& b.text.len() > 0 ==> (out.len() > 0 ==> out.last().end <= b.start)
    &&& out.len() > 0 ==> out.last().end <= p
    &&& 0 <= b.start <= n
    &&& 0 <= b.end <= n
    &&& seg_chain(out, n)
}

/// Consumes one sentence, as `seg_step` says.
fn seg_consume(
    b: &mut SegBuilder,
    segments: &mut Vec<Segment>,
    sent: &Sentence,
    chunk_size: usize,
    group_size: usize,
    Ghost(n): Ghost<int>,
    Ghost(p): Ghost<int>,
)
    requires
        builder_ok(old(b)@, segs_view(old(segments)@), p, n),
        0 <= p <= sent.start,
        sent@.text.len() >= 1,
        sent.start + sent@.text.len() <= n,
        n <= usize::MAX / 8,
        old(b).short < usize::MAX,
    ensures
        final(b)@ == seg_step(old(b)@, sent@, chunk_size as int, group_size as int).0,
        segs_view(final(segments)@) == segs_view(old(segments)@) + seg_step(
            old(b)@,
            sent@,
            chunk_size as int,
            group_size as int,
        ).1,
        builder_ok(final(b)@, segs_view(final(segments)@), sent.start + sent@.text.len(), n),
        final(b).short <= old(b).short + 1,
{
    let ghost cs = chunk_size as int;
    let ghost gs = group_size as int;
    let ghost s = sent@;
    let ghost st0 = b@;
    let ghost out0 = segs_view(segments@);
    let sent_len = sent.text.len();
    let is_short = sent_len < 50;
    let should_break = sent.after_paragraph_break || is_topic_shift(&sent.text) || (b.text.len()
        + sent_len > chunk_size && b.text.len() > 0);
    let ghost brk = s.after_break || topic_shift(s.text) || (st0.text.len() + s.text.len() > cs
        && st0.text.len() > 0);
    assert(brk == should_break);
    let ghost st1 = if brk && st0.text.len() > 0 {
        seg_reset(st0)
    } else {
        st0
    };
    let ghost out1: Seq<SegSpec> = if brk && st0.text.len() > 0 {
        seq![seg_emit(st0)]
    } else {
        Seq::empty()
    };
    if should_break && b.text.len() > 0 {
        emit_segment(segments, &b.text, b.start, b.end, Ghost(n));
        b.text = Vec::new();
        b.short = 0;
    }
    if b.text.len() == 0 {
        b.start = sent.start;
    }
    proof {
        assert(b@.text == st1.text);
        assert(b.short == st1.short);
        assert(out0 + out1 =~= segs_view(segments@));
    }
    append_chars(&mut b.text, &sent.text);
    b.text.push(' ');
    b.end = sent.start + sent_len;
    let ghost st3 = SegState {
        text: st1.text + s.text + seq![' '],
        start: if st1.text.len() == 0 {
            s.start
        } else {
            st1.start
        },
        end: s.start + s.text.len(),
        short: if s.text.len() < 50 {
            st1.short + 1
        } else {
            0
        },
    };
    proof {
        assert(b.text@ =~= st3.text);
        assert(b.start == st3.start);
    }
    if is_short {
        b.short = b.short + 1;
        if b.short >= group_size {
            emit_segment(segments, &b.text, b.start, b.end, Ghost(n));
            b.text = Vec::new();
            b.short = 0;
        }
    } else {
        b.short = 0;
    }
    if b.text.len() > chunk_size {
        emit_segment(segments, &b.text, b.start, b.end, Ghost(n));
        b.text = Vec::new();
        b.short = 0;
    }
    proof {
        let step = seg_step(st0, s, cs, gs);
        assert(step.0 == b@);
        assert(out0 + step.1 =~= segs_view(segments@));
    }
}

/// Groups sentences into semantic segments (see `segments_of`).
#[verifier::spinoff_prover]
#[verifier::rlimit(40)]
fn semantic_segments(sents: &Vec<Sentence>, chunk_size: usize, group_size: usize, Ghost(n): Ghost<int>) -> (r: Vec<Segment>)
    requires
        sents_ok(sents_view(sents@), 0, n),
        0 <= n <= usize::MAX / 8,
    ensures
        segs_view(r@) == segments_of(sents_view(sents@), chunk_size as int, group_size as int),
        seg_chain(segs_view(r@), n),
{
    let ghost ss = sents_view(sents@);
    let ghost cs = chunk_size as int;
    let ghost gs = group_size as int;
    let mut segments: Vec<Segment> = Vec::new();
    let mut b = SegBuilder { text: Vec::new(), start: 0, end: 0, short: 0 };
    let mut k: usize = 0;
    proof {
        assert(ss.take(0) =~= Seq::<SentenceSpec>::empty());
        assert(segs_view(segments@) =~= Seq::<SegSpec>::empty());
    }
    while k < sents.len()
        invariant
            ss == sents_view(sents@),
            sents_ok(ss, 0, n),
            0 <= n <= usize::MAX / 8,
            k <= ss.len(),
            cs == chunk_size as int,
            gs == group_size as int,
            seg_fold(ss.take(k as int), cs, gs) == (b@, segs_view(segments@)),
            builder_ok(b@, segs_view(segments@), prev_end(ss, k as int), n),
            b.short <= k,
        decreases sents.len() - k,
    {
        let sent = &sents[k];
        let ghost s = ss[k as int];
        let ghost st0 = b@;
        let ghost out0 = segs_view(segments@);
        assert(s == sent@);
        proof {
            if k > 0 {
                assert(ss[k - 1].start + ss[k - 1].text.len() <= ss[k as int].start);
            }
        }
        seg_consume(&mut b, &mut segments, sent, chunk_size, group_size, Ghost(n), Ghost(prev_end(ss, k as int)));
        proof {
            assert(ss.take(k + 1).drop_last() =~= ss.take(k as int));
            assert(ss.take(k + 1).last() == s);
            assert(prev_end(ss, k + 1) == s.start + s.text.len());
        }
        k = k + 1;
    }
    proof {
        assert(ss.take(ss.len() as int) =~= ss);
    }
    let final_text = trimmed(&b.text);
    if final_text.len() > 0 {
        let s = Segment { text: final_text, start: b.start, end: b.end };
        proof {
            lemma_segs_view_push(segments@, s);
            assert(b.text@.len() > 0);
            assert(b.text@ == b.text@.drop_last().push(' '));
            lemma_trim_trailing_space(b.text@.drop_last());
            lemma_chain_push(segs_view(segments@), s@, n);
        }
        segments.push(s);
    }
    segments
}

// ---------------------------------------------------------------- merging

/// Appends a segment, merging it into the previous one when that one is
/// shorter than `cs / 4` and the two together (with a space) fit in `cs`.
pub open spec fn merge_step(acc: Seq<SegSpec>, seg: SegSpec, cs: int) -> Seq<SegSpec> {
    if acc.len() > 0 && acc.last().text.len() < cs / 4 && acc.last().text.len() + 1 + seg.text.len()
        <= cs {
        acc.drop_last().push(
            SegSpec { text: acc.last().text + seq![' '] + seg.text, start: acc.last().start, end: seg.end },
        )
    } else {
        acc.push(seg)
    }
}

pub open spec fn merge_fold(segs: Seq<SegSpec>, cs: int) -> Seq<SegSpec>
    decreases segs.len(),
{
    if segs.len() == 0 {
        Seq::empty()
    } else {
        merge_step(merge_fold(segs.drop_last(), cs), segs.last(), cs)
    }
}

/// Merges segments that are too small (see `merge_step`).
#[verifier::spinoff_prover]
#[verifier::rlimit(40)]
fn merge_small_segments(segs: Vec<Segment>, chunk_size: usize, Ghost(n): Ghost<int>) -> (r: Vec<Segment>)
    requires
        seg_chain(segs_view(segs@), n),
        0 <= n <= usize::MAX / 8,
    ensures
        segs_view(r@) == merge_fold(segs_view(segs@), chunk_size as int),
        seg_chain(segs_view(r@), n),
{
    let ghost sv = segs_view(segs@);
    let ghost cs = chunk_size as int;
    let mut merged: Vec<Segment> = Vec::new();
    let mut k: usize = 0;
    proof {
        assert(sv.take(0) =~= Seq::<SegSpec>::empty());
        assert(segs_view(merged@) =~= Seq::<SegSpec>::empty());
    }
    while k < segs.len()
        invariant
            sv == segs_view(segs@),
            seg_chain(sv, n),
            0 <= n <= usize::MAX / 8,
            k <= sv.len(),
            cs == chunk_size as int,
            segs_view(merged@) == merge_fold(sv.take(k as int), cs),
            seg_chain(segs_view(merged@), n),
            k > 0 ==> merged@.len() > 0 && segs_view(merged@).last().end == sv[k - 1].end,
            k == 0 ==> merged@.len() == 0,
        decreases segs.len() - k,
    {
        let seg = &segs[k];
        let ghost acc = segs_view(merged@);
        let ghost g = sv[k as int];
        assert(g == seg@);
        proof {
            assert(sv.take(k + 1).drop_last() =~= sv.take(k as int));
            assert(sv.take(k + 1).last() == g);
            if k > 0 {
                assert(sv[k - 1].end <= sv[k as int].start);
            }
        }
        let mut done = false;
        if merged.len() > 0 {
            let last_len = merged[merged.len() - 1].text.len();
            if last_len < chunk_size / 4 && last_len + 1 + seg.text.len() <= chunk_size {
                let mut last = merged.pop().unwrap();
                let ghost last_v = last@;
                last.text.push(' ');
                append_chars(&mut last.text, &seg.text);
                last.end = seg.end;
                let ghost before = merged@;
                proof {
                    assert(segs_view(before) =~= acc.drop_last());
                    assert(last@.text =~= last_v.text + seq![' '] + g.text);
                }
                merged.push(last);
                proof {
                    lemma_segs_view_push(before, last);
                    assert(segs_view(merged@) =~= merge_step(acc, g, cs));
                    let w = segs_view(merged@);
                    assert forall|j: int| 0 <= j < w.len() - 1 implies (#[trigger] w[j]).end <= w[j + 1].start by {
                        assert(w[j] == acc[j]);
                        if j + 1 < w.len() - 1 {
                            assert(w[j + 1] == acc[j + 1]);
                        }
                    }
                    assert forall|j: int| 0 <= j < w.len() implies 0 <= (#[trigger] w[j]).start < w[j].end <= n
                        && w[j].text.len() + 1 <= 2 * (w[j].end - w[j].start) by {
                        if j < w.len() - 1 {
                            assert(w[j] == acc[j]);
                        }
                    }
                }
                done = true;
            }
        }
        if !done {
            let c = Segment { text: crate::text::slice_to_vec(&seg.text, 0, seg.text.len()), start: seg.start, end: seg.end };
            proof {
                assert(seg.text@.subrange(0, seg.text@.len() as int) =~= seg.text@);
                lemma_segs_view_push(merged@, c);
                lemma_chain_push(acc, c@, n);
            }
            merged.push(c);
            proof {
                assert(segs_view(merged@) =~= merge_step(acc, g, cs));
            }
        }
        k = k + 1;
    }
    proof {
        assert(sv.take(sv.len() as int) =~= sv);
    }
    merged
}

// ---------------------------------------------------------------- chunks

/// Sub-clause punctuation: `；，、;,`.
pub open spec fn is_sub_punct(c: char) -> bool {
    c == '；' || c == '，' || c == '、' || c == ';' || c == ','
}

/// One past the first sub-clause mark at or after `p` (`t.len()` when there is none).
pub open spec fn next_clause_end(t: Seq<char>, p: int) -> int
    decreases t.len() - p,
{
    if p >= t.len() {
        t.len() as int
    } else if is_sub_punct(t[p]) {
        p + 1
    } else {
        next_clause_end(t, p + 1)
    }
}

/// A clause of a sentence: trimmed text and the bounds of its raw piece.
pub struct ClauseSpec {
    pub text: Seq<char>,
    pub start: int,
    pub end: int,
}

/// The clauses of `t[p..]`, cut after each sub-clause mark; empty ones are dropped.
pub open spec fn clauses_from(t: Seq<char>, p: int) -> Seq<ClauseSpec>
    decreases t.len() - p,
{
    if p < 0 || p >= t.len() {
        Seq::empty()
    } else {
        let q = next_clause_end(t, p);
        proof {
            lemma_next_clause_end(t, p);
        }
        let tr = trim(t.subrange(p, q));
        if tr.len() > 0 {
            seq![ClauseSpec { text: tr, start: p, end: q }] + clauses_from(t, q)
        } else {
            clauses_from(t, q)
        }
    }
}

pub proof fn lemma_next_clause_end(t: Seq<char>, p: int)
    requires
        0 <= p < t.len(),
    ensures
        p < next_clause_end(t, p) <= t.len(),
        forall|k: int| p <= k < next_clause_end(t, p) - 1 ==> !is_sub_punct(#[trigger] t[k]),
        next_clause_end(t, p) < t.len() ==> is_sub_punct(t[next_clause_end(t, p) - 1]),
        !is_sub_punct(t[next_clause_end(t, p) - 1]) ==> next_clause_end(t, p) == t.len(),
    decreases t.len() - p,
{
    if !is_sub_punct(t[p]) {
        if p + 1 < t.len() {
            lemma_next_clause_end(t, p + 1);
        } else {
            assert(next_clause_end(t, p + 1) == t.len());
        }
    }
}

pub proof fn lemma_clauses_bounds(t: Seq<char>, p: int)
    requires
        0 <= p,
    ensures
        clauses_from(t, p).len() <= if p < t.len() { t.len() - p } else { 0 },
        forall|i: int|
            0 <= i < clauses_from(t, p).len() ==> p <= (#[trigger] clauses_from(t, p)[i]).start
                < clauses_from(t, p)[i].end <= t.len() && clauses_from(t, p)[i].text.len() <= t.len()
                && clauses_from(t, p)[i].text.len() <= clauses_from(t, p)[i].end - clauses_from(t, p)[i].start,
    decreases t.len() - p,
{
    if p < t.len() {
        lemma_next_clause_end(t, p);
        let q = next_clause_end(t, p);
        lemma_clauses_bounds(t, q);
        lemma_trim_bounds(t.subrange(p, q));
        let all = clauses_from(t, p);
        let rest = clauses_from(t, q);
        if trim(t.subrange(p, q)).len() > 0 {
            assert forall|i: int| 0 <= i < all.len() implies p <= (#[trigger] all[i]).start < all[i].end
                <= t.len() && all[i].text.len() <= t.len() && all[i].text.len() <= all[i].end - all[i].start by {
                if i > 0 {
                    assert(all[i] == rest[i - 1]);
                }
            }
        }
    }
}

/// Every clause fits in `max`, and there is at least one.
pub open spec fn clauses_fit(parts: Seq<ClauseSpec>, max: int) -> bool {
    parts.len() > 0 && forall|i: int| 0 <= i < parts.len() ==> (#[trigger] parts[i]).text.len() <= max
}

/// An over-long sentence becomes its clauses when each of them fits in
/// `max`; otherwise it is kept whole.
pub open spec fn long_sentence_chunks(t: Seq<char>, max: int, base: int, ostart: int) -> Seq<ChunkSpec> {
    let parts = clauses_from(t, 0);
    if clauses_fit(parts, max) {
        Seq::new(
            parts.len(),
            |i: int|
                ChunkSpec {
                    text: parts[i].text,
                    start: ostart + parts[i].start,
                    end: ostart + parts[i].end,
                    index: base + i,
                    meta: MetaSpec::Empty,
                },
        )
    } else {
        seq![ChunkSpec { text: trim(t), start: ostart, end: ostart + t.len(), index: base, meta: MetaSpec::Empty }]
    }
}

struct Clause {
    text: Vec<char>,
    start: usize,
    end: usize,
}

impl View for Clause {
    type V = ClauseSpec;

    closed spec fn view(&self) -> ClauseSpec {
        ClauseSpec { text: self.text@, start: self.start as int, end: self.end as int }
    }
}

spec fn clauses_view(v: Seq<Clause>) -> Seq<ClauseSpec> {
    v.map_values(|c: Clause| c@)
}

fn is_sub_punctuation(c: char) -> (r: bool)
    ensures
        r == is_sub_punct(c),
{
    c == '；' || c == '，' || c == '、' || c == ';' || c == ','
}

proof fn lemma_clause_skip(t: Seq<char>, a: int, b: int)
    requires
        0 <= a <= b < t.len(),
        forall|k: int| a <= k < b ==> !is_sub_punct(#[trigger] t[k]),
    ensures
        next_clause_end(t, a) == next_clause_end(t, b),
    decreases b - a,
{
    if a < b {
        lemma_clause_skip(t, a + 1, b);
    }
}

/// Every chunk starts at a non-negative offset and its start plus its length,
/// and its end, are at most `b`.
pub open spec fn chunks_fit(v: Seq<ChunkSpec>, b: int) -> bool {
    forall|k: int|
        0 <= k < v.len() ==> 0 <= (#[trigger] v[k]).start && v[k].start + v[k].text.len() <= b && v[k].end
            <= b
}

proof fn lemma_fit_push(v: Seq<ChunkSpec>, c: ChunkSpec, b: int)
    requires
        chunks_fit(v, b),
        0 <= c.start && c.start + c.text.len() <= b && c.end <= b,
    ensures
        chunks_fit(v.push(c), b),
{
    assert forall|k: int| 0 <= k < v.len() + 1 implies 0 <= (#[trigger] v.push(c)[k]).start && v.push(c)[k].start
        + v.push(c)[k].text.len() <= b && v.push(c)[k].end <= b by {
        if k < v.len() {
            assert(v.push(c)[k] == v[k]);
        }
    }
}

/// Cuts an over-long sentence at its sub-clause marks when every clause then
/// fits in `max_size`, otherwise keeps it whole, and appends the pieces to
/// `chunks` (`long_sentence_chunks`, indexed from the current length).
pub fn split_long_sentence(chunks: &mut Vec<RawChunk>, text: &[char], max_size: usize, original_start: usize, Ghost(bound): Ghost<int>)
    requires
        original_start + text@.len() <= bound <= usize::MAX,
        chunks_fit(raw_view(old(chunks)@), bound),
    ensures
        chunks_fit(raw_view(final(chunks)@), bound),
        raw_view(final(chunks)@) == raw_view(old(chunks)@) + long_sentence_chunks(
            text@,
            max_size as int,
            old(chunks)@.len() as int,
            original_start as int,
        ),
{
    let ghost t = text@;
    let ghost old_out = raw_view(chunks@);
    let ghost base = chunks@.len() as int;
    let n = text.len();
    let mut parts: Vec<Clause> = Vec::new();
    let mut current_start: usize = 0;
    let mut i: usize = 0;
    proof {
        assert(clauses_view(parts@) =~= Seq::<ClauseSpec>::empty());
    }
    while i < n
        invariant
            t == text@,
            n == t.len(),
            current_start <= i <= n,
            forall|k: int| current_start <= k < i ==> !is_sub_punct(#[trigger] t[k]),
            clauses_view(parts@) + clauses_from(t, current_start as int) == clauses_from(t, 0),
        decreases n - i,
    {
        let ch = text[i];
        if is_sub_punctuation(ch) {
            proof {
                lemma_clause_skip(t, current_start as int, i as int);
                assert(next_clause_end(t, i as int) == i + 1);
            }
            let tr = crate::text::trimmed_slice(text, current_start, i + 1);
            let ghost before = clauses_view(parts@);
            if tr.len() > 0 {
                let c = Clause { text: tr, start: current_start, end: i + 1 };
                parts.push(c);
                proof {
                    assert(clauses_view(parts@) =~= before.push(c@));
                    assert(clauses_view(parts@) + clauses_from(t, i + 1) =~= before + clauses_from(
                        t,
                        current_start as int,
                    ));
                }
            }
            current_start = i + 1;
        }
        i = i + 1;
    }
    let ghost before = clauses_view(parts@);
    if current_start < n {
        proof {
            lemma_clause_skip(t, current_start as int, (n - 1) as int);
            assert(!is_sub_punct(t[n - 1]));
            assert(next_clause_end(t, n as int) == n);
            assert(next_clause_end(t, (n - 1) as int) == n);
            assert(next_clause_end(t, current_start as int) == n);
            assert(clauses_from(t, n as int) == Seq::<ClauseSpec>::empty());
        }
        let tr = crate::text::trimmed_slice(text, current_start, n);
        if tr.len() > 0 {
            let c = Clause { text: tr, start: current_start, end: n };
            parts.push(c);
            proof {
                assert(clauses_view(parts@) =~= before.push(c@));
            }
        }
        proof {
            assert(clauses_view(parts@) =~= clauses_from(t, 0));
        }
    } else {
        proof {
            assert(clauses_from(t, current_start as int) == Seq::<ClauseSpec>::empty());
            assert(clauses_view(parts@) =~= clauses_from(t, 0));
        }
    }
    let ghost pv = clauses_view(parts@);
    proof {
        lemma_clauses_bounds(t, 0);
    }
    let mut fit = parts.len() > 0;
    let mut j: usize = 0;
    while j < parts.len()
        invariant
            pv == clauses_view(parts@),
            j <= parts@.len(),
            fit == (parts@.len() > 0 && forall|m: int| 0 <= m < j ==> (#[trigger] pv[m]).text.len() <= max_size),
        decreases parts.len() - j,
    {
        assert(pv[j as int] == parts@[j as int]@);
        if parts[j].text.len() > max_size {
            fit = false;
        }
        j = j + 1;
    }
    let ghost expected = long_sentence_chunks(t, max_size as int, base, original_start as int);
    if fit {
        let mut m: usize = 0;
        while m < parts.len()
            invariant
                pv == clauses_view(parts@),
                pv == clauses_from(t, 0),
                clauses_fit(pv, max_size as int),
                m <= parts@.len(),
                pv.len() <= t.len(),
                forall|i: int| 0 <= i < pv.len() ==> 0 <= (#[trigger] pv[i]).start < pv[i].end <= t.len(),
                original_start + t.len() <= usize::MAX,
                chunks@.len() == base + m,
                original_start + t.len() <= bound,
                chunks_fit(raw_view(chunks@), bound),
                forall|i: int| 0 <= i < pv.len() ==> (#[trigger] pv[i]).text.len() <= pv[i].end - pv[i].start,
                expected == long_sentence_chunks(t, max_size as int, base, original_start as int),
                raw_view(chunks@) == old_out + expected.take(m as int),
            decreases parts.len() - m,
        {
            let ghost pm = pv[m as int];
            assert(pm == parts@[m as int]@);
            let c = RawChunk {
                text: crate::text::slice_to_vec(&parts[m].text, 0, parts[m].text.len()),
                start: original_start + parts[m].start,
                end: original_start + parts[m].end,
                index: chunks.len(),
                metadata: ChunkMetadata::Empty,
            };
            proof {
                assert(parts@[m as int].text@.subrange(0, parts@[m as int].text@.len() as int) =~= parts@[m as int].text@);
                lemma_raw_view_push(chunks@, c);
                lemma_fit_push(raw_view(chunks@), c@, bound);
            }
            chunks.push(c);
            proof {
                assert(raw_view(chunks@) =~= old_out + expected.take(m + 1));
            }
            m = m + 1;
        }
        proof {
            assert(expected.take(expected.len() as int) =~= expected);
        }
    } else {
        let c = RawChunk {
            text: crate::text::trimmed(text),
            start: original_start,
            end: original_start + n,
            index: chunks.len(),
            metadata: ChunkMetadata::Empty,
        };
        proof {
            lemma_raw_view_push(chunks@, c);
            lemma_trim_bounds(t);
            lemma_fit_push(raw_view(chunks@), c@, bound);
        }
        chunks.push(c);
        proof {
            assert(raw_view(chunks@) =~= old_out + expected);
        }
    }
}

/// The sentences' texts, concatenated.
pub open spec fn join_texts(ss: Seq<SentenceSpec>) -> Seq<char>
    decreases ss.len(),
{
    if ss.len() == 0 {
        Seq::empty()
    } else {
        join_texts(ss.drop_last()) + ss.last().text
    }
}

/// Closes the running chunk made of the sentences `cur`.
pub open spec fn flush_spec(out: Seq<ChunkSpec>, cur: Seq<SentenceSpec>) -> Seq<ChunkSpec> {
    let tr = trim(join_texts(cur));
    if tr.len() > 0 {
        out.push(
            ChunkSpec {
                text: tr,
                start: if cur.len() > 0 { cur[0].start } else { 0 },
                end: if cur.len() > 0 { cur.last().start + cur.last().text.len() } else { 0 },
                index: out.len() as int,
                meta: MetaSpec::Empty,
            },
        )
    } else {
        out
    }
}

/// Sentences at or after a position, all ending within `usize`.
pub open spec fn sents_fit_usize(ss: Seq<SentenceSpec>) -> bool {
    forall|k: int| 0 <= k < ss.len() ==> 0 <= (#[trigger] ss[k]).start && ss[k].start + ss[k].text.len() <= usize::MAX
}

/// Closes the running chunk made of `sents[a..b]` (`flush_spec`).
pub fn flush_chunk(chunks: &mut Vec<RawChunk>, sents: &Vec<Sentence>, a: usize, b: usize, Ghost(bound): Ghost<int>)
    requires
        a < b <= sents@.len(),
        sents_ok(sents_view(sents@), 0, bound),
        bound <= usize::MAX,
        chunks_fit(raw_view(old(chunks)@), bound),
    ensures
        chunks_fit(raw_view(final(chunks)@), bound),
        raw_view(final(chunks)@) == flush_spec(raw_view(old(chunks)@), sents_view(sents@).subrange(a as int, b as int)),
{
    let ghost sv = sents_view(sents@);
    let mut joined: Vec<char> = Vec::new();
    let mut j = a;
    proof {
        assert(sv.subrange(a as int, a as int) =~= Seq::<SentenceSpec>::empty());
    }
    while j < b
        invariant
            sv == sents_view(sents@),
            a <= j <= b <= sv.len(),
            sents_ok(sv, 0, bound),
            joined@ == join_texts(sv.subrange(a as int, j as int)),
            j > a ==> joined@.len() <= sv[j - 1].start + sv[j - 1].text.len() - sv[a as int].start,
            j == a ==> joined@.len() == 0,
        decreases b - j,
    {
        assert(sv[j as int] == sents@[j as int]@);
        proof {
            if j > a {
                assert(sv[j - 1].start + sv[j - 1].text.len() <= sv[j as int].start);
            }
        }
        append_chars(&mut joined, &sents[j].text);
        proof {
            assert(sv.subrange(a as int, j + 1).drop_last() =~= sv.subrange(a as int, j as int));
        }
        j = j + 1;
    }
    let tr = trimmed(&joined);
    if tr.len() > 0 {
        assert(sv[a as int] == sents@[a as int]@);
        assert(sv[b - 1] == sents@[b - 1]@);
        let c = RawChunk {
            text: tr,
            start: sents[a].start,
            end: sents[b - 1].start + sents[b - 1].text.len(),
            index: chunks.len(),
            metadata: ChunkMetadata::Empty,
        };
        proof {
            lemma_raw_view_push(chunks@, c);
            lemma_trim_bounds(joined@);
            lemma_fit_push(raw_view(chunks@), c@, bound);
        }
        chunks.push(c);
    }
}

/// Sentences accumulated into chunks: the running chunk `cur`, its length, and the output.
pub struct AccState {
    pub cur: Seq<SentenceSpec>,
    pub cur_len: int,
    pub out: Seq<ChunkSpec>,
}

/// Takes one sentence: an over-long one closes the running chunk and is cut
/// by `long_sentence_chunks`; otherwise the running chunk is closed when the
/// sentence would make it exceed `max`, and the sentence joins it.
pub open spec fn acc_step(st: AccState, s: SentenceSpec, max: int) -> AccState {
    let len = s.text.len() as int;
    if len > max {
        let out1 = if st.cur.len() > 0 { flush_spec(st.out, st.cur) } else { st.out };
        AccState { cur: Seq::empty(), cur_len: 0, out: out1 + long_sentence_chunks(s.text, max, out1.len() as int, s.start) }
    } else {
        let full = st.cur_len + len > max && st.cur.len() > 0;
        let out1 = if full { flush_spec(st.out, st.cur) } else { st.out };
        let cur1 = if full { Seq::empty() } else { st.cur };
        let len1 = if full { 0 } else { st.cur_len };
        AccState { cur: cur1.push(s), cur_len: len1 + len, out: out1 }
    }
}

pub open spec fn acc_fold(ss: Seq<SentenceSpec>, init: Seq<ChunkSpec>, max: int) -> AccState
    decreases ss.len(),
{
    if ss.len() == 0 {
        AccState { cur: Seq::empty(), cur_len: 0, out: init }
    } else {
        acc_step(acc_fold(ss.drop_last(), init, max), ss.last(), max)
    }
}

/// The chunks once every sentence has been taken and the running chunk closed.
pub open spec fn accumulate_spec(ss: Seq<SentenceSpec>, init: Seq<ChunkSpec>, max: int) -> Seq<ChunkSpec> {
    let st = acc_fold(ss, init, max);
    if st.cur.len() > 0 {
        flush_spec(st.out, st.cur)
    } else {
        st.out
    }
}

/// Packs sentences into chunks of at most `max_size` characters, cutting
/// over-long sentences by clauses (`accumulate_spec`).
#[verifier::spinoff_prover]
pub fn accumulate_sentences(chunks: &mut Vec<RawChunk>, sents: &Vec<Sentence>, max_size: usize, Ghost(bound): Ghost<int>)
    requires
        sents_ok(sents_view(sents@), 0, bound),
        bound <= usize::MAX,
        chunks_fit(raw_view(old(chunks)@), bound),
    ensures
        chunks_fit(raw_view(final(chunks)@), bound),
        raw_view(final(chunks)@) == accumulate_spec(sents_view(sents@), raw_view(old(chunks)@), max_size as int),
{
    let ghost sv = sents_view(sents@);
    let ghost init = raw_view(chunks@);
    let ghost max = max_size as int;
    let mut cur_a: usize = 0;
    let mut cur_len: usize = 0;
    let mut k: usize = 0;
    proof {
        assert(sv.take(0) =~= Seq::<SentenceSpec>::empty());
        assert(sv.subrange(0, 0) =~= Seq::<SentenceSpec>::empty());
    }
    while k < sents.len()
        invariant
            sv == sents_view(sents@),
            sents_ok(sv, 0, bound),
            bound <= usize::MAX,
            chunks_fit(raw_view(chunks@), bound),
            max == max_size as int,
            cur_a <= k <= sv.len(),
            cur_len <= max_size,
            cur_a == k ==> cur_len == 0,
            acc_fold(sv.take(k as int), init, max) == (AccState {
                cur: sv.subrange(cur_a as int, k as int),
                cur_len: cur_len as int,
                out: raw_view(chunks@),
            }),
        decreases sents.len() - k,
    {
        let ghost st = acc_fold(sv.take(k as int), init, max);
        let ghost s = sv[k as int];
        assert(s == sents@[k as int]@);
        proof {
            assert(sv.take(k + 1).drop_last() =~= sv.take(k as int));
            assert(sv.take(k + 1).last() == s);
        }
        let sent_len = sents[k].text.len();
        if sent_len > max_size {
            if cur_a < k {
                flush_chunk(chunks, sents, cur_a, k, Ghost(bound));
            }
            let ghost out1 = raw_view(chunks@);
            split_long_sentence(chunks, &sents[k].text, max_size, sents[k].start, Ghost(bound));
            proof {
                assert(sv.subrange((k + 1) as int, (k + 1) as int) =~= Seq::<SentenceSpec>::empty());
                assert(acc_step(st, s, max).out =~= raw_view(chunks@));
            }
            cur_a = k + 1;
            cur_len = 0;
        } else {
            if sent_len > max_size - cur_len && cur_a < k {
                flush_chunk(chunks, sents, cur_a, k, Ghost(bound));
                cur_a = k;
                cur_len = 0;
            }
            assert(cur_len + sent_len <= max_size);
            cur_len = cur_len + sent_len;
            proof {
                assert(sv.subrange(cur_a as int, k + 1) =~= (if cur_a == k { Seq::<SentenceSpec>::empty() } else { st.cur }).push(s));
            }
        }
        k = k + 1;
    }
    proof {
        assert(sv.take(sv.len() as int) =~= sv);
    }
    if cur_a < sents.len() {
        flush_chunk(chunks, sents, cur_a, sents.len(), Ghost(bound));
    }
}

// ---------------------------------------------------------------- per segment

/// Sentences shifted by `off` characters.
pub open spec fn offset_sents(ss: Seq<SentenceSpec>, off: int) -> Seq<SentenceSpec> {
    Seq::new(
        ss.len(),
        |k: int| SentenceSpec { text: ss[k].text, start: ss[k].start + off, after_break: ss[k].after_break },
    )
}

/// A segment that fits becomes one chunk; a longer one is re-split into its
/// sentences, which are packed into chunks of at most `cs` characters.
pub open spec fn seg_chunks(out: Seq<ChunkSpec>, seg: SegSpec, cs: int) -> Seq<ChunkSpec> {
    if seg.text.len() <= cs {
        out.push(ChunkSpec { text: seg.text, start: seg.start, end: seg.end, index: out.len() as int, meta: MetaSpec::Empty })
    } else {
        accumulate_spec(offset_sents(sentences_of(seg.text), seg.start), out, cs)
    }
}

pub open spec fn base_fold(segs: Seq<SegSpec>, cs: int) -> Seq<ChunkSpec>
    decreases segs.len(),
{
    if segs.len() == 0 {
        Seq::empty()
    } else {
        seg_chunks(base_fold(segs.drop_last(), cs), segs.last(), cs)
    }
}

/// Shifts sentences by `off` characters.
pub fn offset_sentences(sents: &Vec<Sentence>, off: usize, Ghost(hi): Ghost<int>) -> (r: Vec<Sentence>)
    requires
        sents_ok(sents_view(sents@), 0, hi),
        off + hi <= usize::MAX,
    ensures
        sents_view(r@) == offset_sents(sents_view(sents@), off as int),
        sents_ok(sents_view(r@), off as int, off + hi),
{
    let ghost sv = sents_view(sents@);
    let mut r: Vec<Sentence> = Vec::new();
    let mut k: usize = 0;
    while k < sents.len()
        invariant
            sv == sents_view(sents@),
            sents_ok(sv, 0, hi),
            off + hi <= usize::MAX,
            k <= sv.len(),
            sents_view(r@) == offset_sents(sv, off as int).take(k as int),
        decreases sents.len() - k,
    {
        let s = &sents[k];
        assert(sv[k as int] == s@);
        let t = crate::text::slice_to_vec(&s.text, 0, s.text.len());
        proof {
            assert(s.text@.subrange(0, s.text@.len() as int) =~= s.text@);
        }
        let n = Sentence { text: t, start: s.start + off, after_paragraph_break: s.after_paragraph_break };
        let ghost before = r@;
        r.push(n);
        proof {
            assert(sents_view(r@) =~= sents_view(before).push(n@));
            assert(sents_view(r@) =~= offset_sents(sv, off as int).take(k + 1));
        }
        k = k + 1;
    }
    proof {
        let o = offset_sents(sv, off as int);
        assert(o.take(o.len() as int) =~= o);
        assert forall|k: int| 0 <= k < o.len() - 1 implies (#[trigger] o[k]).start + o[k].text.len() <= o[k + 1].start by {
            assert(sv[k].start + sv[k].text.len() <= sv[k + 1].start);
        }
    }
    r
}

proof fn lemma_sents_ok_widen(ss: Seq<SentenceSpec>, lo: int, hi: int, b: int)
    requires
        sents_ok(ss, lo, hi),
        0 <= lo,
        hi <= b,
    ensures
        sents_ok(ss, 0, b),
{
}

/// Chunks of one segment (`seg_chunks`).
fn segment_chunks(chunks: &mut Vec<RawChunk>, seg: &Segment, chunk_size: usize, Ghost(n): Ghost<int>)
    requires
        0 <= seg.start,
        seg.start + seg.text@.len() <= 3 * n,
        seg.end <= n,
        0 <= n <= usize::MAX / 8,
        chunks_fit(raw_view(old(chunks)@), 3 * n),
    ensures
        raw_view(final(chunks)@) == seg_chunks(raw_view(old(chunks)@), seg@, chunk_size as int),
        chunks_fit(raw_view(final(chunks)@), 3 * n),
{
    if seg.text.len() <= chunk_size {
        let c = RawChunk {
            text: crate::text::slice_to_vec(&seg.text, 0, seg.text.len()),
            start: seg.start,
            end: seg.end,
            index: chunks.len(),
            metadata: ChunkMetadata::Empty,
        };
        proof {
            assert(seg.text@.subrange(0, seg.text@.len() as int) =~= seg.text@);
            lemma_raw_view_push(chunks@, c);
            lemma_fit_push(raw_view(chunks@), c@, 3 * n);
        }
        chunks.push(c);
    } else {
        let sents = split_sentence_chars(&seg.text);
        proof {
            lemma_sentences_ok(seg.text@, 0, false);
        }
        let shifted = offset_sentences(&sents, seg.start, Ghost(seg.text@.len() as int));
        proof {
            lemma_sents_ok_widen(sents_view(shifted@), seg.start as int, seg.start + seg.text@.len(), 3 * n);
        }
        accumulate_sentences(chunks, &shifted, chunk_size, Ghost(3 * n));
    }
}

/// The chunks of all segments (`base_fold`).
#[verifier::spinoff_prover]
fn base_chunks(segs: &Vec<Segment>, chunk_size: usize, Ghost(n): Ghost<int>) -> (r: Vec<RawChunk>)
    requires
        seg_chain(segs_view(segs@), n),
        0 <= n <= usize::MAX / 8,
    ensures
        raw_view(r@) == base_fold(segs_view(segs@), chunk_size as int),
        chunks_fit(raw_view(r@), 3 * n),
{
    let ghost sv = segs_view(segs@);
    let mut chunks: Vec<RawChunk> = Vec::new();
    let mut k: usize = 0;
    proof {
        assert(sv.take(0) =~= Seq::<SegSpec>::empty());
        assert(raw_view(chunks@) =~= Seq::<ChunkSpec>::empty());
    }
    while k < segs.len()
        invariant
            sv == segs_view(segs@),
            seg_chain(sv, n),
            0 <= n <= usize::MAX / 8,
            k <= sv.len(),
            raw_view(chunks@) == base_fold(sv.take(k as int), chunk_size as int),
            chunks_fit(raw_view(chunks@), 3 * n),
        decreases segs.len() - k,
    {
        assert(sv[k as int] == segs@[k as int]@);
        proof {
            assert(sv.take(k + 1).drop_last() =~= sv.take(k as int));
            assert(sv.take(k + 1).last() == sv[k as int]);
        }
        segment_chunks(&mut chunks, &segs[k], chunk_size, Ghost(n));
        k = k + 1;
    }
    proof {
        assert(sv.take(sv.len() as int) =~= sv);
    }
    chunks
}

// ---------------------------------------------------------------- overlap

/// How many whole sentences, taken back from the end of `ps[..j]`, fit in the
/// overlap budget `ov` (already `ol` used) while keeping the chunk, of length
/// `clen`, within `cs + ov`.
pub open spec fn overlap_count(ps: Seq<SentenceSpec>, j: int, ol: int, clen: int, cs: int, ov: int) -> int
    decreases j,
{
    if j <= 0 || j > ps.len() {
        0
    } else {
        let l = ps[j - 1].text.len() as int;
        if ol + l > ov || ol + l + clen > cs + ov {
            0
        } else {
            1 + overlap_count(ps, j - 1, ol + l, clen, cs, ov)
        }
    }
}

/// The sentences of `ss` that lie within `[lo, hi]`, in order.
pub open spec fn sents_within(ss: Seq<SentenceSpec>, lo: int, hi: int) -> Seq<SentenceSpec>
    decreases ss.len(),
{
    if ss.len() == 0 {
        Seq::empty()
    } else {
        let rest = sents_within(ss.drop_last(), lo, hi);
        let s = ss.last();
        if lo <= s.start && s.start + s.text.len() <= hi {
            rest.push(s)
        } else {
            rest
        }
    }
}

/// The `i`-th chunk with trailing whole sentences of the previous chunk in
/// front: those of the text's sentences `ss` that lie within the previous
/// chunk's span. The chunk then starts where the first of them starts.
pub open spec fn with_overlap(ss: Seq<SentenceSpec>, chunks: Seq<ChunkSpec>, i: int, cs: int, ov: int) -> ChunkSpec {
    let c = chunks[i];
    if i == 0 {
        ChunkSpec { text: c.text, start: c.start, end: c.end, index: 0, meta: c.meta }
    } else {
        let prev = chunks[i - 1];
        let ps = sents_within(ss, prev.start, prev.end);
        let m = overlap_count(ps, ps.len() as int, 0, c.text.len() as int, cs, ov);
        if m > 0 {
            let os = ps.subrange(ps.len() - m, ps.len() as int);
            ChunkSpec { text: trim(join_texts(os)) + c.text, start: os[0].start, end: c.end, index: i, meta: c.meta }
        } else {
            ChunkSpec { text: c.text, start: c.start, end: c.end, index: i, meta: c.meta }
        }
    }
}

/// Sentence-level overlap between neighbouring chunks (only when `ov > 0` and
/// there are at least two chunks); `ss` are the sentences of the text.
pub open spec fn overlap_phase(ss: Seq<SentenceSpec>, chunks: Seq<ChunkSpec>, cs: int, ov: int) -> Seq<ChunkSpec> {
    if ov > 0 && chunks.len() > 1 {
        Seq::new(chunks.len(), |i: int| with_overlap(ss, chunks, i, cs, ov))
    } else {
        chunks
    }
}

/// Copies of the sentences of `sents` that lie within `[lo, hi]` (`sents_within`).
fn sentences_within(sents: &Vec<Sentence>, lo: usize, hi: usize, Ghost(n): Ghost<int>) -> (r: Vec<Sentence>)
    requires
        sents_ok(sents_view(sents@), 0, n),
        n <= usize::MAX,
    ensures
        sents_view(r@) == sents_within(sents_view(sents@), lo as int, hi as int),
{
    let ghost sv = sents_view(sents@);
    let mut r: Vec<Sentence> = Vec::new();
    let mut k: usize = 0;
    proof {
        assert(sv.take(0) =~= Seq::<SentenceSpec>::empty());
        assert(sents_view(r@) =~= Seq::<SentenceSpec>::empty());
    }
    while k < sents.len()
        invariant
            sv == sents_view(sents@),
            sents_ok(sv, 0, n),
            n <= usize::MAX,
            k <= sv.len(),
            sents_view(r@) == sents_within(sv.take(k as int), lo as int, hi as int),
        decreases sents.len() - k,
    {
        let s = &sents[k];
        assert(sv[k as int] == s@);
        proof {
            assert(sv.take(k + 1).drop_last() =~= sv.take(k as int));
            assert(sv.take(k + 1).last() == sv[k as int]);
        }
        if lo <= s.start && s.start + s.text.len() <= hi {
            let t = crate::text::slice_to_vec(&s.text, 0, s.text.len());
            proof {
                assert(s.text@.subrange(0, s.text@.len() as int) =~= s.text@);
            }
            let c = Sentence { text: t, start: s.start, after_paragraph_break: s.after_paragraph_break };
            let ghost before = r@;
            r.push(c);
            proof {
                assert(sents_view(r@) =~= sents_view(before).push(c@));
            }
        }
        k = k + 1;
    }
    proof {
        assert(sv.take(sv.len() as int) =~= sv);
    }
    r
}

proof fn lemma_overlap_count(ps: Seq<SentenceSpec>, j: int, ol: int, clen: int, cs: int, ov: int)
    requires
        0 <= j <= ps.len(),
    ensures
        0 <= overlap_count(ps, j, ol, clen, cs, ov) <= j,
    decreases j,
{
    if j > 0 {
        let l = ps[j - 1].text.len() as int;
        lemma_overlap_count(ps, j - 1, ol + l, clen, cs, ov);
    }
}

/// The `i`-th chunk after overlap (`with_overlap`).
fn overlap_one(sents: &Vec<Sentence>, chunks: &Vec<RawChunk>, i: usize, chunk_size: usize, overlap: usize, Ghost(n): Ghost<int>) -> (r: RawChunk)
    requires
        0 < i < chunks@.len(),
        sents_ok(sents_view(sents@), 0, n),
        n <= usize::MAX,
        chunk_size + overlap <= usize::MAX,
    ensures
        r@ == with_overlap(sents_view(sents@), raw_view(chunks@), i as int, chunk_size as int, overlap as int),
{
    let ghost cv = raw_view(chunks@);
    let ghost sv = sents_view(sents@);
    let c = &chunks[i];
    let prev = &chunks[i - 1];
    assert(cv[i as int] == c@);
    assert(cv[i - 1] == prev@);
    let ps = sentences_within(sents, prev.start, prev.end, Ghost(n));
    let ghost psv = sents_view(ps@);
    let clen = c.text.len();
    let mut ol: usize = 0;
    let mut j = ps.len();
    proof {
        lemma_overlap_count(psv, psv.len() as int, 0, clen as int, chunk_size as int, overlap as int);
    }
    while j > 0
        invariant
            psv == sents_view(ps@),
            j <= psv.len(),
            ol <= overlap,
            chunk_size + overlap <= usize::MAX,
            overlap_count(psv, psv.len() as int, 0, clen as int, chunk_size as int, overlap as int)
                == (psv.len() - j) + overlap_count(psv, j as int, ol as int, clen as int, chunk_size as int, overlap as int),
        ensures
            j <= psv.len(),
            overlap_count(psv, psv.len() as int, 0, clen as int, chunk_size as int, overlap as int)
                == (psv.len() - j) + overlap_count(psv, j as int, ol as int, clen as int, chunk_size as int, overlap as int),
            j > 0 ==> (ol + psv[j - 1].text.len() > overlap || ol + psv[j - 1].text.len() + clen > chunk_size + overlap),
        decreases j,
    {
        assert(psv[j - 1] == ps@[j - 1]@);
        let sl = ps[j - 1].text.len();
        if sl > overlap - ol {
            break;
        }
        if clen > (chunk_size + overlap) - (ol + sl) {
            break;
        }
        ol = ol + sl;
        j = j - 1;
    }
    let ghost m = overlap_count(psv, psv.len() as int, 0, clen as int, chunk_size as int, overlap as int);
    proof {
        if j > 0 {
            let l = psv[j - 1].text.len() as int;
            assert(ol + l > overlap || ol + l + clen > chunk_size + overlap);
        }
        assert(m == psv.len() - j);
    }
    let meta = crate::chunking::chunk::copy_metadata(&c.metadata);
    if j < ps.len() {
        let mut joined: Vec<char> = Vec::new();
        let mut q = j;
        proof {
            assert(psv.subrange(j as int, j as int) =~= Seq::<SentenceSpec>::empty());
        }
        while q < ps.len()
            invariant
                psv == sents_view(ps@),
                j <= q <= psv.len(),
                joined@ == join_texts(psv.subrange(j as int, q as int)),
            decreases ps.len() - q,
        {
            assert(psv[q as int] == ps@[q as int]@);
            append_chars(&mut joined, &ps[q].text);
            proof {
                assert(psv.subrange(j as int, q + 1).drop_last() =~= psv.subrange(j as int, q as int));
            }
            q = q + 1;
        }
        let mut text = trimmed(&joined);
        append_chars(&mut text, &c.text);
        assert(psv[j as int] == ps@[j as int]@);
        let r = RawChunk { text, start: ps[j].start, end: c.end, index: i, metadata: meta };
        proof {
            let os = psv.subrange(psv.len() - m, psv.len() as int);
            assert(os =~= psv.subrange(j as int, q as int));
            assert(os[0] == psv[j as int]);
            assert(r@ == with_overlap(sv, cv, i as int, chunk_size as int, overlap as int));
        }
        r
    } else {
        let r = RawChunk { text: crate::text::slice_to_vec(&c.text, 0, c.text.len()), start: c.start, end: c.end, index: i, metadata: meta };
        proof {
            assert(c.text@.subrange(0, c.text@.len() as int) =~= c.text@);
            assert(r@ == with_overlap(sv, cv, i as int, chunk_size as int, overlap as int));
        }
        r
    }
}

/// Sentence-level overlap over all chunks (`overlap_phase`).
#[verifier::spinoff_prover]
fn apply_overlap(sents: &Vec<Sentence>, chunks: Vec<RawChunk>, chunk_size: usize, overlap: usize, Ghost(n): Ghost<int>) -> (r: Vec<RawChunk>)
    requires
        sents_ok(sents_view(sents@), 0, n),
        n <= usize::MAX,
        chunk_size + overlap <= usize::MAX,
    ensures
        raw_view(r@) == overlap_phase(sents_view(sents@), raw_view(chunks@), chunk_size as int, overlap as int),
{
    if overlap == 0 || chunks.len() <= 1 {
        return chunks;
    }
    let ghost cv = raw_view(chunks@);
    let ghost sv = sents_view(sents@);
    let ghost want = overlap_phase(sv, cv, chunk_size as int, overlap as int);
    let mut result: Vec<RawChunk> = Vec::new();
    let mut i: usize = 0;
    while i < chunks.len()
        invariant
            cv == raw_view(chunks@),
            sv == sents_view(sents@),
            sents_ok(sv, 0, n),
            n <= usize::MAX,
            chunk_size + overlap <= usize::MAX,
            overlap > 0,
            chunks@.len() > 1,
            want == overlap_phase(sv, cv, chunk_size as int, overlap as int),
            i <= chunks@.len(),
            raw_view(result@) == want.take(i as int),
        decreases chunks.len() - i,
    {
        let c = if i == 0 {
            let c0 = &chunks[0];
            assert(cv[0] == c0@);
            let r = RawChunk {
                text: crate::text::slice_to_vec(&c0.text, 0, c0.text.len()),
                start: c0.start,
                end: c0.end,
                index: 0,
                metadata: crate::chunking::chunk::copy_metadata(&c0.metadata),
            };
            proof {
                assert(c0.text@.subrange(0, c0.text@.len() as int) =~= c0.text@);
            }
            r
        } else {
            overlap_one(sents, &chunks, i, chunk_size, overlap, Ghost(n))
        };
        proof {
            assert(c@ == want[i as int]);
            lemma_raw_view_push(result@, c);
        }
        result.push(c);
        proof {
            assert(raw_view(result@) =~= want.take(i + 1));
        }
        i = i + 1;
    }
    proof {
        assert(want.take(want.len() as int) =~= want);
    }
    result
}

/// The chunks of semantic splitting: sentences → segments → merged segments →
/// chunks of at most `cs` new characters → sentence overlap.
pub open spec fn semantic_chunks(t: Seq<char>, cs: int, ov: int, gs: int) -> Seq<ChunkSpec> {
    let g = if gs < 1 { 1 } else { gs };
    let ss = sentences_of(t);
    overlap_phase(ss, base_fold(merge_fold(segments_of(ss, cs, g), cs), cs), cs, ov)
}

/// Semantic splitting of a text given as characters (`semantic_chunks`).
pub fn semantic_split_chars(text: &[char], chunk_size: usize, overlap: usize, group_size: usize) -> (r: Vec<RawChunk>)
    requires
        text@.len() <= usize::MAX / 8,
        chunk_size + overlap <= usize::MAX,
    ensures
        raw_view(r@) == semantic_chunks(text@, chunk_size as int, overlap as int, group_size as int),
{
    let ghost n = text@.len() as int;
    let sentences = split_sentence_chars(text);
    proof {
        lemma_sentences_ok(text@, 0, false);
    }
    let group_size = if group_size < 1 { 1 } else { group_size };
    let segments = semantic_segments(&sentences, chunk_size, group_size, Ghost(n));
    let merged = merge_small_segments(segments, chunk_size, Ghost(n));
    let chunks = base_chunks(&merged, chunk_size, Ghost(n));
    apply_overlap(&sentences, chunks, chunk_size, overlap, Ghost(n))
}

/// Semantic splitting (`semantic_chunks` of the text's characters).
pub fn semantic_split(text: &str, chunk_size: usize, overlap: usize, group_size: usize) -> (r: Vec<ChunkResult>)
    requires
        text@.len() <= usize::MAX / 8,
        chunk_size + overlap <= usize::MAX,
    ensures
        chunks_view(r@) == semantic_chunks(text@, chunk_size as int, overlap as int, group_size as int),
{
    let chars = crate::text::chars_of(text);
    let raw = semantic_split_chars(&chars, chunk_size, overlap, group_size);
    crate::chunking::chunk::finish_chunks(raw)
}

} // verus!
