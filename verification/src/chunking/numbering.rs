//! Chunks are numbered by their position: every strategy gives each chunk
//! its place in the list as `index`.
use vstd::prelude::*;
use crate::chunking::agentic::{reindexed, session_chunks, SessionView};
use crate::chunking::chunk::{indexed, ChunkSpec};
use crate::chunking::semantic::{
    acc_fold, accumulate_spec, base_fold, clauses_fit, clauses_from, flush_spec, long_sentence_chunks, offset_sents,
    overlap_phase, seg_chunks, semantic_chunks, with_overlap, SegSpec,
};
use crate::chunking::sentences::{sentences_of, SentenceSpec};
use crate::chunking::recursive::{agg_flush, agg_fold, recursive_chunks, rsplit, AggState};
use crate::chunking::structural::{lines_from, md_flush, md_fold, markdown_chunks, para_flush, para_fold, paragraph_chunks, para_sep, prev_tail_overlap, ParaState};
use crate::chunking::recursive::split_from;
use crate::chunking::strategies::structural_chunks;

verus! {

proof fn lemma_flush_indexed(out: Seq<ChunkSpec>, cur: Seq<SentenceSpec>)
    requires
        indexed(out),
    ensures
        indexed(flush_spec(out, cur)),
{
    let r = flush_spec(out, cur);
    assert forall|i: int| 0 <= i < r.len() implies (#[trigger] r[i]).index == i by {
        if i < out.len() {
            assert(r[i] == out[i]);
        }
    }
}

proof fn lemma_long_indexed(out: Seq<ChunkSpec>, t: Seq<char>, max: int, start: int)
    requires
        indexed(out),
    ensures
        indexed(out + long_sentence_chunks(t, max, out.len() as int, start)),
{
    let l = long_sentence_chunks(t, max, out.len() as int, start);
    let all = out + l;
    assert forall|i: int| 0 <= i < all.len() implies (#[trigger] all[i]).index == i by {
        if i < out.len() {
            assert(all[i] == out[i]);
        } else {
            assert(all[i] == l[i - out.len()]);
            if clauses_fit(clauses_from(t, 0), max) {
                assert(l[i - out.len()].index == out.len() + (i - out.len()));
            }
        }
    }
}

proof fn lemma_acc_indexed(ss: Seq<SentenceSpec>, init: Seq<ChunkSpec>, max: int)
    requires
        indexed(init),
    ensures
        indexed(acc_fold(ss, init, max).out),
    decreases ss.len(),
{
    if ss.len() > 0 {
        lemma_acc_indexed(ss.drop_last(), init, max);
        let st = acc_fold(ss.drop_last(), init, max);
        let s = ss.last();
        if st.cur.len() > 0 {
            lemma_flush_indexed(st.out, st.cur);
        }
        if s.text.len() > max {
            let out1 = if st.cur.len() > 0 { flush_spec(st.out, st.cur) } else { st.out };
            lemma_long_indexed(out1, s.text, max, s.start);
        }
    }
}

proof fn lemma_seg_indexed(out: Seq<ChunkSpec>, seg: SegSpec, cs: int)
    requires
        indexed(out),
    ensures
        indexed(seg_chunks(out, seg, cs)),
{
    let r = seg_chunks(out, seg, cs);
    if seg.text.len() <= cs {
        assert forall|i: int| 0 <= i < r.len() implies (#[trigger] r[i]).index == i by {
            if i < out.len() {
                assert(r[i] == out[i]);
            }
        }
    } else {
        let ss = offset_sents(sentences_of(seg.text), seg.start);
        lemma_acc_indexed(ss, out, cs);
        let st = acc_fold(ss, out, cs);
        if st.cur.len() > 0 {
            lemma_flush_indexed(st.out, st.cur);
        }
        assert(r == accumulate_spec(ss, out, cs));
    }
}

proof fn lemma_base_indexed(segs: Seq<SegSpec>, cs: int)
    ensures
        indexed(base_fold(segs, cs)),
    decreases segs.len(),
{
    if segs.len() > 0 {
        lemma_base_indexed(segs.drop_last(), cs);
        lemma_seg_indexed(base_fold(segs.drop_last(), cs), segs.last(), cs);
    }
}

/// Law: every chunk of the semantic split carries its position in the
/// list as its index.
pub proof fn lemma_semantic_indexed(t: Seq<char>, cs: int, ov: int, gs: int)
    ensures
        indexed(semantic_chunks(t, cs, ov, gs)),
{
    let g = if gs < 1 { 1 } else { gs };
    let base = base_fold(
        crate::chunking::semantic::merge_fold(
            crate::chunking::semantic::segments_of(sentences_of(t), cs, g),
            cs,
        ),
        cs,
    );
    lemma_base_indexed(
        crate::chunking::semantic::merge_fold(crate::chunking::semantic::segments_of(sentences_of(t), cs, g), cs),
        cs,
    );
    let r = overlap_phase(sentences_of(t), base, cs, ov);
    if ov > 0 && base.len() > 1 {
        assert forall|i: int| 0 <= i < r.len() implies (#[trigger] r[i]).index == i by {
            assert(r[i] == with_overlap(sentences_of(t), base, i, cs, ov));
        }
    }
}

proof fn lemma_agg_flush_indexed(st: AggState)
    requires
        indexed(st.out),
    ensures
        indexed(agg_flush(st)),
{
    let r = agg_flush(st);
    assert forall|i: int| 0 <= i < r.len() implies (#[trigger] r[i]).index == i by {
        if i < st.out.len() {
            assert(r[i] == st.out[i]);
        }
    }
}

proof fn lemma_agg_fold_indexed(ps: Seq<Seq<char>>, cs: int, ov: int)
    ensures
        indexed(agg_fold(ps, cs, ov).out),
    decreases ps.len(),
{
    if ps.len() > 0 {
        lemma_agg_fold_indexed(ps.drop_last(), cs, ov);
        lemma_agg_flush_indexed(agg_fold(ps.drop_last(), cs, ov));
    }
}

/// Law: every chunk of the recursive character split carries its position
/// in the list as its index.
pub proof fn lemma_recursive_indexed(t: Seq<char>, seps: Seq<Seq<char>>, cs: int, ov: int)
    ensures
        indexed(recursive_chunks(t, seps, cs, ov)),
{
    let ps = rsplit(t, seps, 0, cs);
    lemma_agg_fold_indexed(ps, cs, ov);
    lemma_agg_flush_indexed(agg_fold(ps, cs, ov));
}

proof fn lemma_md_flush_indexed(out: Seq<ChunkSpec>, section: Seq<char>, title: Option<Seq<char>>, start: int, end: int, cs: int)
    requires
        indexed(out),
    ensures
        indexed(md_flush(out, section, title, start, end, cs)),
{
    let r = md_flush(out, section, title, start, end, cs);
    assert forall|i: int| 0 <= i < r.len() implies (#[trigger] r[i]).index == i by {
        if i < out.len() {
            assert(r[i] == out[i]);
        }
    }
}

proof fn lemma_md_fold_indexed(lines: Seq<Seq<char>>, cs: int)
    ensures
        indexed(md_fold(lines, cs).out),
    decreases lines.len(),
{
    if lines.len() > 0 {
        lemma_md_fold_indexed(lines.drop_last(), cs);
        let st = md_fold(lines.drop_last(), cs);
        lemma_md_flush_indexed(st.out, st.section, st.title, st.cstart, st.offset, cs);
    }
}

proof fn lemma_para_flush_indexed(st: ParaState)
    requires
        indexed(st.out),
    ensures
        indexed(para_flush(st)),
{
    let r = para_flush(st);
    assert forall|i: int| 0 <= i < r.len() implies (#[trigger] r[i]).index == i by {
        if i < st.out.len() {
            assert(r[i] == st.out[i]);
        }
    }
}

proof fn lemma_para_fold_indexed(ps: Seq<Seq<char>>, cs: int, ov: int)
    ensures
        indexed(para_fold(ps, cs, ov).out),
    decreases ps.len(),
{
    if ps.len() > 0 {
        lemma_para_fold_indexed(ps.drop_last(), cs, ov);
        lemma_para_flush_indexed(para_fold(ps.drop_last(), cs, ov));
    }
}

/// Law: every chunk of the structure-based split (Markdown sections or
/// paragraphs) carries its position in the list as its index.
pub proof fn lemma_structural_indexed(t: Seq<char>, cs: int, ov: int)
    ensures
        indexed(structural_chunks(t, cs, ov)),
{
    let st = md_fold(lines_from(t, 0), cs);
    lemma_md_fold_indexed(lines_from(t, 0), cs);
    lemma_md_flush_indexed(st.out, st.section, st.title, st.cstart, st.offset, cs);
    let v = md_flush(st.out, st.section, st.title, st.cstart, st.offset, cs);
    let m = prev_tail_overlap(v, ov);
    assert forall|i: int| 0 <= i < m.len() implies (#[trigger] m[i]).index == i by {
        if !(ov > 0 && v.len() > 1) {
            assert(m[i] == v[i]);
        }
    }
    assert(markdown_chunks(t, cs, ov) == m);
    let ps = split_from(t, para_sep(), 0);
    lemma_para_fold_indexed(ps, cs, ov);
    lemma_para_flush_indexed(para_fold(ps, cs, ov));
    assert(paragraph_chunks(t, cs, ov) == para_flush(para_fold(ps, cs, ov)));
}

/// Law: every chunk of a model-assisted split carries its position in the
/// list as its index.
pub proof fn lemma_session_indexed(v: SessionView)
    ensures
        indexed(session_chunks(v)),
{
    let r = session_chunks(v);
    assert forall|i: int| 0 <= i < r.len() implies (#[trigger] r[i]).index == i by {
        assert(r == reindexed(crate::chunking::agentic::tiny_fold(
            crate::chunking::agentic::enforce_fold(crate::chunking::agentic::grouped_segments(v.sents, v.cuts), v.max),
            v.max,
        )));
    }
}

} // verus!
