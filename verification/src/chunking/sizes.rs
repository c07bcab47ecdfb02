//! Size bounds of the recursive character split and of the structure-based
//! split: a chunk holds at most `chunk_size` characters of new text and
//! `overlap` characters carried over.
use vstd::prelude::*;
use crate::text::{lemma_trim_bounds, trim};
use crate::chunking::chunk::ChunkSpec;
use crate::chunking::recursive::{agg_flush, agg_fold, all_fit, lemma_hard_pieces, lemma_rsplit, recursive_chunks, rsplit, hard_pieces, AggState};
use crate::chunking::structural::{
    lines_from, markdown_chunks, md_flush, md_fold, para_flush, para_fold, para_sep, paragraph_chunks, prev_tail_overlap, tail_chars,
    ParaState,
};
use crate::chunking::recursive::split_from;

verus! {

/// Every chunk holds at most `b` characters.
pub open spec fn texts_within(v: Seq<ChunkSpec>, b: int) -> bool {
    forall|i: int| 0 <= i < v.len() ==> (#[trigger] v[i]).text.len() <= b
}

proof fn lemma_agg_flush_within(st: AggState, b: int)
    requires
        texts_within(st.out, b),
        st.cur.len() <= b,
    ensures
        texts_within(agg_flush(st), b),
{
    lemma_trim_bounds(st.cur);
    let r = agg_flush(st);
    assert forall|i: int| 0 <= i < r.len() implies (#[trigger] r[i]).text.len() <= b by {
        if i < st.out.len() {
            assert(r[i] == st.out[i]);
        }
    }
}

proof fn lemma_agg_fold_within(ps: Seq<Seq<char>>, cs: int, ov: int)
    requires
        all_fit(ps, cs),
        cs >= 0,
        ov >= 0,
    ensures
        texts_within(agg_fold(ps, cs, ov).out, cs + ov),
        agg_fold(ps, cs, ov).cur.len() <= cs + ov,
    decreases ps.len(),
{
    if ps.len() > 0 {
        let init = ps.drop_last();
        assert forall|i: int| 0 <= i < init.len() implies (#[trigger] init[i]).len() <= cs by {
            assert(init[i] == ps[i]);
        }
        lemma_agg_fold_within(init, cs, ov);
        let st = agg_fold(init, cs, ov);
        let piece = ps.last();
        assert(piece == ps[ps.len() - 1]);
        if st.cur.len() + piece.len() > cs && st.cur.len() > 0 {
            lemma_agg_flush_within(st, cs + ov);
        }
    }
}

/// Law: every chunk of the recursive character split holds at most
/// `cs + ov` characters: at most `cs` of new text, and at most `ov` carried
/// over from the chunk before.
pub proof fn lemma_recursive_chunk_sizes(t: Seq<char>, seps: Seq<Seq<char>>, cs: int, ov: int)
    requires
        cs >= 1,
        ov >= 0,
    ensures
        texts_within(recursive_chunks(t, seps, cs, ov), cs + ov),
{
    lemma_rsplit(t, seps, 0, cs);
    let ps = rsplit(t, seps, 0, cs);
    lemma_agg_fold_within(ps, cs, ov);
    lemma_agg_flush_within(agg_fold(ps, cs, ov), cs + ov);
}

proof fn lemma_md_flush_within(out: Seq<ChunkSpec>, section: Seq<char>, title: Option<Seq<char>>, start: int, end: int, cs: int)
    requires
        texts_within(out, cs),
        cs >= 1,
    ensures
        texts_within(md_flush(out, section, title, start, end, cs), cs),
{
    let r = md_flush(out, section, title, start, end, cs);
    let tr = trim(section);
    if tr.len() > cs {
        lemma_hard_pieces(tr, cs);
        let ps = hard_pieces(tr, cs);
        assert forall|i: int| 0 <= i < r.len() implies (#[trigger] r[i]).text.len() <= cs by {
            if i < out.len() {
                assert(r[i] == out[i]);
            } else {
                assert(r[i].text == ps[i - out.len()]);
            }
        }
    } else {
        assert forall|i: int| 0 <= i < r.len() implies (#[trigger] r[i]).text.len() <= cs by {
            if i < out.len() {
                assert(r[i] == out[i]);
            }
        }
    }
}

proof fn lemma_md_fold_within(lines: Seq<Seq<char>>, cs: int)
    requires
        cs >= 1,
    ensures
        texts_within(md_fold(lines, cs).out, cs),
    decreases lines.len(),
{
    if lines.len() > 0 {
        lemma_md_fold_within(lines.drop_last(), cs);
        let st = md_fold(lines.drop_last(), cs);
        lemma_md_flush_within(st.out, st.section, st.title, st.cstart, st.offset, cs);
    }
}

/// Law: every chunk of the Markdown split holds at most `cs + ov`
/// characters: at most `cs` of its section, and at most `ov` carried over
/// from the chunk before.
pub proof fn lemma_markdown_chunk_sizes(t: Seq<char>, cs: int, ov: int)
    requires
        cs >= 1,
        ov >= 0,
    ensures
        texts_within(markdown_chunks(t, cs, ov), cs + ov),
{
    let st = md_fold(lines_from(t, 0), cs);
    lemma_md_fold_within(lines_from(t, 0), cs);
    lemma_md_flush_within(st.out, st.section, st.title, st.cstart, st.offset, cs);
    let v = md_flush(st.out, st.section, st.title, st.cstart, st.offset, cs);
    let r = prev_tail_overlap(v, ov);
    assert(markdown_chunks(t, cs, ov) == r);
    assert forall|i: int| 0 <= i < r.len() implies (#[trigger] r[i]).text.len() <= cs + ov by {
        if ov > 0 && v.len() > 1 {
            if i > 0 {
                assert(tail_chars(v[i - 1].text, ov).len() <= ov);
            }
        } else {
            assert(r[i] == v[i]);
        }
    }
}

proof fn lemma_para_flush_within(st: ParaState, b: int)
    requires
        texts_within(st.out, b),
        st.cur.len() <= b,
    ensures
        texts_within(para_flush(st), b),
{
    lemma_trim_bounds(st.cur);
    let r = para_flush(st);
    assert forall|i: int| 0 <= i < r.len() implies (#[trigger] r[i]).text.len() <= b by {
        if i < st.out.len() {
            assert(r[i] == st.out[i]);
        }
    }
}

proof fn lemma_para_fold_within(ps: Seq<Seq<char>>, cs: int, ov: int)
    requires
        forall|i: int| 0 <= i < ps.len() ==> (#[trigger] ps[i]).len() + 2 <= cs,
        cs >= 0,
        ov >= 0,
    ensures
        texts_within(para_fold(ps, cs, ov).out, cs + ov),
        para_fold(ps, cs, ov).cur.len() <= cs + ov,
    decreases ps.len(),
{
    if ps.len() > 0 {
        let init = ps.drop_last();
        assert forall|i: int| 0 <= i < init.len() implies (#[trigger] init[i]).len() + 2 <= cs by {
            assert(init[i] == ps[i]);
        }
        lemma_para_fold_within(init, cs, ov);
        let st = para_fold(init, cs, ov);
        assert(ps.last() == ps[ps.len() - 1]);
        if st.cur.len() > 0 {
            lemma_para_flush_within(st, cs + ov);
        }
    }
}

/// Law: when every paragraph, with the blank line before it, fits in `cs`,
/// every chunk of the paragraph split holds at most `cs + ov` characters
/// (a longer paragraph is kept whole).
pub proof fn lemma_paragraph_chunk_sizes(t: Seq<char>, cs: int, ov: int)
    requires
        ov >= 0,
        forall|i: int|
            0 <= i < split_from(t, para_sep(), 0).len() ==> (#[trigger] split_from(t, para_sep(), 0)[i]).len() + 2 <= cs,
    ensures
        texts_within(paragraph_chunks(t, cs, ov), cs + ov),
{
    let ps = split_from(t, para_sep(), 0);
    crate::chunking::recursive::lemma_split_from(t, para_sep(), 0);
    assert(ps[0].len() + 2 <= cs);
    lemma_para_fold_within(ps, cs, ov);
    lemma_para_flush_within(para_fold(ps, cs, ov), cs + ov);
}

} // verus!
