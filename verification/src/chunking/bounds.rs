//! The size bound of the semantic split: a chunk holds at most `chunk_size`
//! characters of new text plus `overlap` characters carried over, unless it
//! is a single over-long sentence that has no clause split.
use vstd::prelude::*;
use crate::text::{lemma_trim_bounds, lemma_trim_idempotent, trim};
use crate::chunking::chunk::{ChunkSpec, MetaSpec};
use crate::chunking::agentic::{enforce_fold, reindexed, session_chunks, tiny_fold, tiny_step, total_len, SessionView};
use crate::chunking::sentences::{lemma_piece_end, next_stop, para_at, piece_end, sentences_from, sentences_of, SentenceSpec};
use crate::chunking::semantic::{
    acc_fold, acc_step, accumulate_spec, base_fold, clauses_fit, clauses_from, flush_spec, join_texts, long_sentence_chunks,
    merge_fold, offset_sents, overlap_count, overlap_phase, segments_of, sents_within, seg_chunks, semantic_chunks, with_overlap, AccState,
    SegSpec,
};

verus! {

/// A text longer than `cs` that is kept whole because not all of its clauses
/// fit in `cs`.
pub open spec fn kept_whole(x: Seq<char>, cs: int) -> bool {
    x.len() > cs && !clauses_fit(clauses_from(x, 0), cs)
}

/// The chunk holds at most `b` characters, or is a text kept whole.
pub open spec fn chunk_within(c: ChunkSpec, b: int, cs: int) -> bool {
    c.text.len() <= b || kept_whole(c.text, cs)
}

/// Every chunk holds at most `b` characters or is a text kept whole.
pub open spec fn all_within(v: Seq<ChunkSpec>, b: int, cs: int) -> bool {
    forall|i: int| 0 <= i < v.len() ==> chunk_within(#[trigger] v[i], b, cs)
}

/// Every sentence's text is trimmed.
pub open spec fn texts_trimmed(ss: Seq<SentenceSpec>) -> bool {
    forall|k: int| 0 <= k < ss.len() ==> trim((#[trigger] ss[k]).text) == ss[k].text
}

pub proof fn lemma_sentence_texts_trimmed(t: Seq<char>, p: int, b: bool)
    ensures
        texts_trimmed(sentences_from(t, p, b)),
    decreases t.len() - p,
{
    if 0 <= p < t.len() {
        lemma_piece_end(t, p);
        let q = next_stop(t, p);
        let e = piece_end(t, q);
        let tr = trim(t.subrange(p, e));
        lemma_trim_idempotent(t.subrange(p, e));
        let all = sentences_from(t, p, b);
        if q < t.len() {
            let b2 = if tr.len() > 0 { para_at(t, q) } else { b || para_at(t, q) };
            lemma_sentence_texts_trimmed(t, e, b2);
            let rest = sentences_from(t, e, b2);
            if tr.len() > 0 {
                assert forall|k: int| 0 <= k < all.len() implies trim((#[trigger] all[k]).text) == all[k].text by {
                    if k > 0 {
                        assert(all[k] == rest[k - 1]);
                    }
                }
            }
        }
    }
}

proof fn lemma_push_within(v: Seq<ChunkSpec>, c: ChunkSpec, b: int, cs: int)
    requires
        all_within(v, b, cs),
        chunk_within(c, b, cs),
    ensures
        all_within(v.push(c), b, cs),
{
    assert forall|i: int| 0 <= i < v.push(c).len() implies chunk_within(#[trigger] v.push(c)[i], b, cs) by {
        if i < v.len() {
            assert(v.push(c)[i] == v[i]);
        }
    }
}

proof fn lemma_join_total(ss: Seq<SentenceSpec>)
    ensures
        join_texts(ss).len() == total_len(ss),
    decreases ss.len(),
{
    if ss.len() > 0 {
        lemma_join_total(ss.drop_last());
    }
}

proof fn lemma_total_nonneg(ss: Seq<SentenceSpec>)
    ensures
        total_len(ss) >= 0,
    decreases ss.len(),
{
    if ss.len() > 0 {
        lemma_total_nonneg(ss.drop_last());
    }
}

proof fn lemma_flush_within(out: Seq<ChunkSpec>, cur: Seq<SentenceSpec>, max: int)
    requires
        all_within(out, max, max),
        total_len(cur) <= max,
    ensures
        all_within(flush_spec(out, cur), max, max),
{
    lemma_join_total(cur);
    lemma_trim_bounds(join_texts(cur));
    let tr = trim(join_texts(cur));
    if tr.len() > 0 {
        let c = ChunkSpec {
            text: tr,
            start: if cur.len() > 0 { cur[0].start } else { 0 },
            end: if cur.len() > 0 { cur.last().start + cur.last().text.len() } else { 0 },
            index: out.len() as int,
            meta: MetaSpec::Empty,
        };
        lemma_push_within(out, c, max, max);
    }
}

proof fn lemma_long_within(out: Seq<ChunkSpec>, t: Seq<char>, max: int, start: int)
    requires
        all_within(out, max, max),
        trim(t) == t,
        t.len() > max,
    ensures
        all_within(out + long_sentence_chunks(t, max, out.len() as int, start), max, max),
{
    let l = long_sentence_chunks(t, max, out.len() as int, start);
    let all = out + l;
    assert forall|i: int| 0 <= i < all.len() implies chunk_within(#[trigger] all[i], max, max) by {
        if i < out.len() {
            assert(all[i] == out[i]);
        } else {
            assert(all[i] == l[i - out.len()]);
            let parts = clauses_from(t, 0);
            if clauses_fit(parts, max) {
                assert(l[i - out.len()].text == parts[i - out.len()].text);
            } else {
                assert(l[i - out.len()].text == trim(t));
            }
        }
    }
}

#[verifier::spinoff_prover]
proof fn lemma_acc_fold(ss: Seq<SentenceSpec>, init: Seq<ChunkSpec>, max: int)
    requires
        all_within(init, max, max),
        texts_trimmed(ss),
        max >= 0,
    ensures
        all_within(acc_fold(ss, init, max).out, max, max),
        acc_fold(ss, init, max).cur_len == total_len(acc_fold(ss, init, max).cur),
        acc_fold(ss, init, max).cur_len <= max,
    decreases ss.len(),
{
    if ss.len() > 0 {
        let init_ss = ss.drop_last();
        assert forall|k: int| 0 <= k < init_ss.len() implies trim((#[trigger] init_ss[k]).text) == init_ss[k].text by {
            assert(init_ss[k] == ss[k]);
        }
        lemma_acc_fold(init_ss, init, max);
        let st = acc_fold(init_ss, init, max);
        let s = ss.last();
        assert(trim(ss[ss.len() - 1].text) == ss[ss.len() - 1].text);
        lemma_total_nonneg(st.cur);
        let len = s.text.len() as int;
        if len > max {
            if st.cur.len() > 0 {
                lemma_flush_within(st.out, st.cur, max);
            }
            let out1 = if st.cur.len() > 0 { flush_spec(st.out, st.cur) } else { st.out };
            lemma_long_within(out1, s.text, max, s.start);
            assert(total_len(Seq::<SentenceSpec>::empty()) == 0);
        } else {
            let full = st.cur_len + len > max && st.cur.len() > 0;
            if full {
                lemma_flush_within(st.out, st.cur, max);
            }
            let cur1 = if full { Seq::<SentenceSpec>::empty() } else { st.cur };
            let len1 = if full { 0 } else { st.cur_len };
            assert(cur1.push(s).drop_last() =~= cur1);
            assert(cur1.push(s).last() == s);
            assert(total_len(cur1.push(s)) == total_len(cur1) + len);
            assert(total_len(Seq::<SentenceSpec>::empty()) == 0);
            assert(len1 == total_len(cur1));
            if st.cur.len() == 0 {
                assert(st.cur =~= Seq::<SentenceSpec>::empty());
            }
            let st2 = acc_step(st, s, max);
            assert(st2.cur == cur1.push(s));
            assert(st2.cur_len == len1 + len);
        }
    }
}

proof fn lemma_accumulate_within(ss: Seq<SentenceSpec>, init: Seq<ChunkSpec>, max: int)
    requires
        all_within(init, max, max),
        texts_trimmed(ss),
        max >= 0,
    ensures
        all_within(accumulate_spec(ss, init, max), max, max),
{
    lemma_acc_fold(ss, init, max);
    let st = acc_fold(ss, init, max);
    if st.cur.len() > 0 {
        lemma_flush_within(st.out, st.cur, max);
    }
}

proof fn lemma_base_within(segs: Seq<SegSpec>, cs: int)
    requires
        cs >= 0,
    ensures
        all_within(base_fold(segs, cs), cs, cs),
    decreases segs.len(),
{
    if segs.len() > 0 {
        lemma_base_within(segs.drop_last(), cs);
        let out = base_fold(segs.drop_last(), cs);
        let seg = segs.last();
        if seg.text.len() <= cs {
            let c = ChunkSpec { text: seg.text, start: seg.start, end: seg.end, index: out.len() as int, meta: MetaSpec::Empty };
            lemma_push_within(out, c, cs, cs);
        } else {
            lemma_sentence_texts_trimmed(seg.text, 0, false);
            let ss = offset_sents(sentences_of(seg.text), seg.start);
            assert forall|k: int| 0 <= k < ss.len() implies trim((#[trigger] ss[k]).text) == ss[k].text by {
                assert(ss[k].text == sentences_of(seg.text)[k].text);
            }
            lemma_accumulate_within(ss, out, cs);
        }
    }
}

pub proof fn lemma_overlap_total(ps: Seq<SentenceSpec>, j: int, ol: int, clen: int, cs: int, ov: int)
    requires
        0 <= j <= ps.len(),
        ol >= 0,
    ensures
        0 <= overlap_count(ps, j, ol, clen, cs, ov) <= j,
        overlap_count(ps, j, ol, clen, cs, ov) > 0 ==> ol + total_len(
            ps.subrange(j - overlap_count(ps, j, ol, clen, cs, ov), j),
        ) + clen <= cs + ov,
    decreases j,
{
    if j > 0 {
        let l = ps[j - 1].text.len() as int;
        if !(ol + l > ov || ol + l + clen > cs + ov) {
            lemma_overlap_total(ps, j - 1, ol + l, clen, cs, ov);
            let m = overlap_count(ps, j, ol, clen, cs, ov);
            let m2 = overlap_count(ps, j - 1, ol + l, clen, cs, ov);
            assert(m == 1 + m2);
            let sub = ps.subrange(j - m, j);
            assert(sub.drop_last() =~= ps.subrange(j - 1 - m2, j - 1));
            assert(sub.last() == ps[j - 1]);
            assert(total_len(sub) == total_len(sub.drop_last()) + sub.last().text.len());
            if m2 == 0 {
                assert(ps.subrange(j - 1 - m2, j - 1) =~= Seq::<SentenceSpec>::empty());
                assert(total_len(ps.subrange(j - 1 - m2, j - 1)) == 0);
            }
            assert(ol + total_len(sub) + clen <= cs + ov);
        }
    }
}

proof fn lemma_overlap_within(ss: Seq<SentenceSpec>, chunks: Seq<ChunkSpec>, cs: int, ov: int)
    requires
        all_within(chunks, cs, cs),
        ov >= 0,
    ensures
        all_within(overlap_phase(ss, chunks, cs, ov), cs + ov, cs),
{
    let r = overlap_phase(ss, chunks, cs, ov);
    if ov > 0 && chunks.len() > 1 {
        assert forall|i: int| 0 <= i < r.len() implies chunk_within(#[trigger] r[i], cs + ov, cs) by {
            assert(r[i] == with_overlap(ss, chunks, i, cs, ov));
            assert(chunk_within(chunks[i], cs, cs));
            if i > 0 {
                let c = chunks[i];
                let prev = chunks[i - 1];
                let ps = sents_within(ss, prev.start, prev.end);
                lemma_overlap_total(ps, ps.len() as int, 0, c.text.len() as int, cs, ov);
                let m = overlap_count(ps, ps.len() as int, 0, c.text.len() as int, cs, ov);
                if m > 0 {
                    let os = ps.subrange(ps.len() - m, ps.len() as int);
                    lemma_join_total(os);
                    lemma_trim_bounds(join_texts(os));
                }
            }
        }
    } else {
        assert forall|i: int| 0 <= i < r.len() implies chunk_within(#[trigger] r[i], cs + ov, cs) by {
            assert(chunk_within(chunks[i], cs, cs));
        }
    }
}

/// Every chunk of the semantic split holds at most `cs + ov` characters
/// (`cs` of new text, `ov` carried over), unless it is one over-long
/// sentence whose clauses do not all fit, which is kept whole.
pub proof fn lemma_semantic_chunk_sizes(t: Seq<char>, cs: int, ov: int, gs: int)
    requires
        cs >= 0,
        ov >= 0,
    ensures
        all_within(semantic_chunks(t, cs, ov, gs), cs + ov, cs),
{
    let g = if gs < 1 { 1 } else { gs };
    let segs = merge_fold(segments_of(sentences_of(t), cs, g), cs);
    lemma_base_within(segs, cs);
    lemma_overlap_within(sentences_of(t), base_fold(segs, cs), cs, ov);
}

proof fn lemma_enforce_within(segs: Seq<(Seq<char>, int, int)>, max: int)
    requires
        max >= 0,
    ensures
        all_within(enforce_fold(segs, max), max, max),
    decreases segs.len(),
{
    if segs.len() > 0 {
        lemma_enforce_within(segs.drop_last(), max);
        let out = enforce_fold(segs.drop_last(), max);
        let seg = segs.last();
        if seg.0.len() <= max {
            let c = ChunkSpec { text: seg.0, start: seg.1, end: seg.2, index: out.len() as int, meta: MetaSpec::Agentic };
            lemma_push_within(out, c, max, max);
        } else {
            lemma_sentence_texts_trimmed(seg.0, 0, false);
            let ss = offset_sents(sentences_of(seg.0), seg.1);
            assert forall|k: int| 0 <= k < ss.len() implies trim((#[trigger] ss[k]).text) == ss[k].text by {
                assert(ss[k].text == sentences_of(seg.0)[k].text);
            }
            lemma_accumulate_within(ss, out, max);
        }
    }
}

proof fn lemma_tiny_within(cs: Seq<ChunkSpec>, max: int)
    requires
        all_within(cs, max, max),
    ensures
        all_within(tiny_fold(cs, max), max, max),
    decreases cs.len(),
{
    if cs.len() > 0 {
        let init = cs.drop_last();
        assert forall|i: int| 0 <= i < init.len() implies chunk_within(#[trigger] init[i], max, max) by {
            assert(init[i] == cs[i]);
        }
        lemma_tiny_within(init, max);
        let acc = tiny_fold(init, max);
        let c = cs.last();
        assert(chunk_within(cs[cs.len() - 1], max, max));
        let r = tiny_step(acc, c, max);
        assert forall|i: int| 0 <= i < r.len() implies chunk_within(#[trigger] r[i], max, max) by {
            if acc.len() > 0 && acc.last().text.len() < max / 4 && acc.last().text.len() + 1 + c.text.len() <= max {
                if i < acc.len() - 1 {
                    assert(r[i] == acc[i]);
                }
            } else {
                if i < acc.len() {
                    assert(r[i] == acc[i]);
                }
            }
        }
    }
}

/// Every chunk of a split with the model holds at most its size bound,
/// unless it is one over-long sentence whose clauses do not all fit: the
/// model's cuts never make a chunk too long.
pub proof fn lemma_session_chunk_sizes(v: SessionView)
    requires
        v.max >= 0,
    ensures
        all_within(session_chunks(v), v.max, v.max),
{
    lemma_enforce_within(crate::chunking::agentic::grouped_segments(v.sents, v.cuts), v.max);
    lemma_tiny_within(enforce_fold(crate::chunking::agentic::grouped_segments(v.sents, v.cuts), v.max), v.max);
    let m = tiny_fold(enforce_fold(crate::chunking::agentic::grouped_segments(v.sents, v.cuts), v.max), v.max);
    assert forall|i: int| 0 <= i < reindexed(m).len() implies chunk_within(#[trigger] reindexed(m)[i], v.max, v.max) by {
        assert(reindexed(m)[i].text == m[i].text);
        assert(chunk_within(m[i], v.max, v.max));
    }
}

} // verus!
