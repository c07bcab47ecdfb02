//! The semantic split gives no chunk exactly when the text is blank, and
//! never a blank chunk.
use vstd::prelude::*;
use crate::text::{is_ws, lemma_trim_empty, lemma_trim_idempotent, trim};
use crate::chunking::bounds::lemma_sentence_texts_trimmed;
use crate::chunking::chunk::ChunkSpec;
use crate::chunking::grouping::lemma_join_non_blank;
use crate::chunking::semantic::{
    acc_fold, accumulate_spec, base_fold, clauses_fit, clauses_from, flush_spec, join_texts, lemma_next_clause_end,
    long_sentence_chunks, merge_fold, offset_sents, overlap_phase, seg_chunks, seg_fold, seg_step, segments_of,
    semantic_chunks, with_overlap, SegSpec,
};
use crate::chunking::sentence_ends::lemma_sentences_non_empty;
use crate::chunking::sentences::{lemma_piece_end, next_stop, para_at, piece_end, sentences_from, sentences_of, SentenceSpec};

verus! {

/// The text has a character that is not whitespace.
pub open spec fn non_blank(x: Seq<char>) -> bool {
    trim(x).len() > 0
}

spec fn sents_non_blank(ss: Seq<SentenceSpec>) -> bool {
    forall|k: int| 0 <= k < ss.len() ==> non_blank(#[trigger] ss[k].text)
}

spec fn segs_non_blank(v: Seq<SegSpec>) -> bool {
    forall|k: int| 0 <= k < v.len() ==> non_blank(#[trigger] v[k].text)
}

/// Every chunk holds a character that is not whitespace.
pub open spec fn chunks_non_blank(v: Seq<ChunkSpec>) -> bool {
    forall|k: int| 0 <= k < v.len() ==> non_blank(#[trigger] v[k].text)
}

proof fn lemma_concat_non_blank(a: Seq<char>, b: Seq<char>)
    requires
        non_blank(a) || non_blank(b),
    ensures
        non_blank(a + b),
{
    lemma_trim_empty(a);
    lemma_trim_empty(b);
    let c = a + b;
    if non_blank(a) {
        let i = choose|i: int| 0 <= i < a.len() && !is_ws(#[trigger] a[i]);
        assert(c[i] == a[i]);
    } else {
        let i = choose|i: int| 0 <= i < b.len() && !is_ws(#[trigger] b[i]);
        assert(c[a.len() + i] == b[i]);
    }
    lemma_trim_empty(c);
}

proof fn lemma_trimmed_non_blank(x: Seq<char>)
    ensures
        non_blank(trim(x)) == non_blank(x),
{
    lemma_trim_idempotent(x);
}

proof fn lemma_sentences_blank(t: Seq<char>, p: int, b: bool)
    requires
        0 <= p,
        forall|k: int| p <= k < t.len() ==> is_ws(#[trigger] t[k]),
    ensures
        sentences_from(t, p, b).len() == 0,
    decreases t.len() - p,
{
    if p < t.len() {
        lemma_piece_end(t, p);
        let q = next_stop(t, p);
        let e = piece_end(t, q);
        let piece = t.subrange(p, e);
        assert forall|i: int| 0 <= i < piece.len() implies is_ws(#[trigger] piece[i]) by {
            assert(piece[i] == t[p + i]);
        }
        lemma_trim_empty(piece);
        if q < t.len() {
            lemma_sentences_blank(t, e, b || para_at(t, q));
        }
    }
}

proof fn lemma_sentences_some(t: Seq<char>, p: int, b: bool, k: int)
    requires
        0 <= p <= k < t.len(),
        !is_ws(t[k]),
    ensures
        sentences_from(t, p, b).len() > 0,
    decreases t.len() - p,
{
    lemma_piece_end(t, p);
    let q = next_stop(t, p);
    let e = piece_end(t, q);
    let piece = t.subrange(p, e);
    if k < e {
        assert(piece[k - p] == t[k]);
        lemma_trim_empty(piece);
    } else {
        let b2 = if trim(piece).len() > 0 { para_at(t, q) } else { b || para_at(t, q) };
        lemma_sentences_some(t, e, b2, k);
    }
}

/// The sentences of a text all hold a character that is not whitespace.
proof fn lemma_sentence_texts_non_blank(t: Seq<char>)
    ensures
        sents_non_blank(sentences_of(t)),
{
    lemma_sentence_texts_trimmed(t, 0, false);
    lemma_sentences_non_empty(t, 0, false);
    let ss = sentences_of(t);
    assert forall|k: int| 0 <= k < ss.len() implies non_blank(#[trigger] ss[k].text) by {
        assert(trim(ss[k].text) == ss[k].text);
    }
}

proof fn lemma_seg_fold_non_blank(ss: Seq<SentenceSpec>, cs: int, gs: int)
    requires
        sents_non_blank(ss),
        cs >= 0,
    ensures
        seg_fold(ss, cs, gs).0.text.len() == 0 || non_blank(seg_fold(ss, cs, gs).0.text),
        segs_non_blank(seg_fold(ss, cs, gs).1),
        ss.len() > 0 ==> (seg_fold(ss, cs, gs).1.len() > 0 || non_blank(seg_fold(ss, cs, gs).0.text)),
    decreases ss.len(),
{
    if ss.len() > 0 {
        let pre = ss.drop_last();
        assert(sents_non_blank(pre)) by {
            assert forall|k: int| 0 <= k < pre.len() implies non_blank(#[trigger] pre[k].text) by {
                assert(pre[k] == ss[k]);
            }
        }
        lemma_seg_fold_non_blank(pre, cs, gs);
        let prev = seg_fold(pre, cs, gs);
        let st = prev.0;
        let s = ss.last();
        assert(non_blank(s.text));
        let len = s.text.len() as int;
        let brk = s.after_break || crate::chunking::sentences::topic_shift(s.text) || (st.text.len() + len > cs
            && st.text.len() > 0);
        let st1 = if brk && st.text.len() > 0 { crate::chunking::semantic::seg_reset(st) } else { st };
        let text3 = st1.text + s.text + seq![' '];
        lemma_concat_non_blank(st1.text, s.text);
        lemma_concat_non_blank(st1.text + s.text, seq![' ']);
        assert(non_blank(text3));
        lemma_trimmed_non_blank(st.text);
        lemma_trimmed_non_blank(text3);
        let step = seg_step(st, s, cs, gs);
        assert(step.0.text.len() == 0 || non_blank(step.0.text));
        assert(segs_non_blank(step.1));
        assert(step.1.len() > 0 || non_blank(step.0.text));
        let all = prev.1 + step.1;
        assert(seg_fold(ss, cs, gs) == (step.0, all));
        assert forall|k: int| 0 <= k < all.len() implies non_blank(#[trigger] all[k].text) by {
            if k < prev.1.len() {
                assert(all[k] == prev.1[k]);
            } else {
                assert(all[k] == step.1[k - prev.1.len()]);
            }
        }
    }
}

proof fn lemma_segments_non_blank(ss: Seq<SentenceSpec>, cs: int, gs: int)
    requires
        sents_non_blank(ss),
        cs >= 0,
    ensures
        segs_non_blank(segments_of(ss, cs, gs)),
        ss.len() > 0 <==> segments_of(ss, cs, gs).len() > 0,
{
    lemma_seg_fold_non_blank(ss, cs, gs);
    let f = seg_fold(ss, cs, gs);
    lemma_trimmed_non_blank(f.0.text);
    if ss.len() == 0 {
        assert(f.1.len() == 0);
        assert(trim(f.0.text) =~= Seq::<char>::empty());
    }
}

proof fn lemma_merge_non_blank(segs: Seq<SegSpec>, cs: int)
    requires
        segs_non_blank(segs),
    ensures
        segs_non_blank(merge_fold(segs, cs)),
        segs.len() > 0 <==> merge_fold(segs, cs).len() > 0,
    decreases segs.len(),
{
    if segs.len() > 0 {
        let pre = segs.drop_last();
        assert(segs_non_blank(pre)) by {
            assert forall|k: int| 0 <= k < pre.len() implies non_blank(#[trigger] pre[k].text) by {
                assert(pre[k] == segs[k]);
            }
        }
        lemma_merge_non_blank(pre, cs);
        let acc = merge_fold(pre, cs);
        let seg = segs.last();
        let r = merge_fold(segs, cs);
        if acc.len() > 0 && acc.last().text.len() < cs / 4 && acc.last().text.len() + 1 + seg.text.len() <= cs {
            lemma_concat_non_blank(acc.last().text, seq![' ']);
            lemma_concat_non_blank(acc.last().text + seq![' '], seg.text);
            assert forall|k: int| 0 <= k < r.len() implies non_blank(#[trigger] r[k].text) by {
                if k < r.len() - 1 {
                    assert(r[k] == acc[k]);
                }
            }
        } else {
            assert forall|k: int| 0 <= k < r.len() implies non_blank(#[trigger] r[k].text) by {
                if k < r.len() - 1 {
                    assert(r[k] == acc[k]);
                }
            }
        }
    }
}

proof fn lemma_clauses_non_blank(t: Seq<char>, p: int)
    requires
        0 <= p,
    ensures
        forall|i: int| 0 <= i < clauses_from(t, p).len() ==> non_blank(#[trigger] clauses_from(t, p)[i].text),
    decreases t.len() - p,
{
    if p < t.len() {
        lemma_next_clause_end(t, p);
        let q = crate::chunking::semantic::next_clause_end(t, p);
        lemma_clauses_non_blank(t, q);
        let tr = trim(t.subrange(p, q));
        lemma_trimmed_non_blank(t.subrange(p, q));
        let all = clauses_from(t, p);
        let rest = clauses_from(t, q);
        if tr.len() > 0 {
            assert forall|i: int| 0 <= i < all.len() implies non_blank(#[trigger] all[i].text) by {
                if i > 0 {
                    assert(all[i] == rest[i - 1]);
                }
            }
        }
    }
}

proof fn lemma_push_non_blank(v: Seq<ChunkSpec>, c: ChunkSpec)
    requires
        chunks_non_blank(v),
        non_blank(c.text),
    ensures
        chunks_non_blank(v.push(c)),
{
    assert forall|k: int| 0 <= k < v.push(c).len() implies non_blank(#[trigger] v.push(c)[k].text) by {
        if k < v.len() {
            assert(v.push(c)[k] == v[k]);
        }
    }
}

proof fn lemma_flush_non_blank(out: Seq<ChunkSpec>, cur: Seq<SentenceSpec>)
    requires
        chunks_non_blank(out),
        sents_non_blank(cur),
    ensures
        chunks_non_blank(flush_spec(out, cur)),
        cur.len() > 0 ==> flush_spec(out, cur).len() > 0,
{
    let tr = trim(join_texts(cur));
    lemma_trimmed_non_blank(join_texts(cur));
    if cur.len() > 0 {
        lemma_join_non_blank(cur);
    }
    if tr.len() > 0 {
        lemma_push_non_blank(
            out,
            ChunkSpec {
                text: tr,
                start: if cur.len() > 0 { cur[0].start } else { 0 },
                end: if cur.len() > 0 { cur.last().start + cur.last().text.len() } else { 0 },
                index: out.len() as int,
                meta: crate::chunking::chunk::MetaSpec::Empty,
            },
        );
    }
}

proof fn lemma_long_non_blank(out: Seq<ChunkSpec>, t: Seq<char>, max: int, ostart: int)
    requires
        chunks_non_blank(out),
        non_blank(t),
    ensures
        chunks_non_blank(out + long_sentence_chunks(t, max, out.len() as int, ostart)),
        long_sentence_chunks(t, max, out.len() as int, ostart).len() > 0,
{
    let l = long_sentence_chunks(t, max, out.len() as int, ostart);
    let parts = clauses_from(t, 0);
    lemma_clauses_non_blank(t, 0);
    lemma_trimmed_non_blank(t);
    let r = out + l;
    assert forall|k: int| 0 <= k < r.len() implies non_blank(#[trigger] r[k].text) by {
        if k < out.len() {
            assert(r[k] == out[k]);
        } else {
            assert(r[k] == l[k - out.len()]);
            if clauses_fit(parts, max) {
                assert(l[k - out.len()].text == parts[k - out.len()].text);
            }
        }
    }
}

proof fn lemma_acc_non_blank(ss: Seq<SentenceSpec>, init: Seq<ChunkSpec>, max: int)
    requires
        sents_non_blank(ss),
        chunks_non_blank(init),
    ensures
        chunks_non_blank(acc_fold(ss, init, max).out),
        sents_non_blank(acc_fold(ss, init, max).cur),
        ss.len() > 0 ==> (acc_fold(ss, init, max).out.len() > 0 || acc_fold(ss, init, max).cur.len() > 0),
    decreases ss.len(),
{
    if ss.len() > 0 {
        let pre = ss.drop_last();
        assert(sents_non_blank(pre)) by {
            assert forall|k: int| 0 <= k < pre.len() implies non_blank(#[trigger] pre[k].text) by {
                assert(pre[k] == ss[k]);
            }
        }
        lemma_acc_non_blank(pre, init, max);
        let st = acc_fold(pre, init, max);
        let s = ss.last();
        assert(non_blank(s.text));
        lemma_flush_non_blank(st.out, st.cur);
        let len = s.text.len() as int;
        if len > max {
            let out1 = if st.cur.len() > 0 { flush_spec(st.out, st.cur) } else { st.out };
            lemma_long_non_blank(out1, s.text, max, s.start);
        } else {
            let full = st.cur_len + len > max && st.cur.len() > 0;
            let cur1 = if full { Seq::<SentenceSpec>::empty() } else { st.cur };
            let c2 = cur1.push(s);
            assert forall|k: int| 0 <= k < c2.len() implies non_blank(#[trigger] c2[k].text) by {
                if k < cur1.len() {
                    assert(c2[k] == cur1[k]);
                }
            }
        }
    }
}

proof fn lemma_accumulate_non_blank(ss: Seq<SentenceSpec>, init: Seq<ChunkSpec>, max: int)
    requires
        sents_non_blank(ss),
        chunks_non_blank(init),
    ensures
        chunks_non_blank(accumulate_spec(ss, init, max)),
        ss.len() > 0 ==> accumulate_spec(ss, init, max).len() > 0,
{
    lemma_acc_non_blank(ss, init, max);
    let st = acc_fold(ss, init, max);
    lemma_flush_non_blank(st.out, st.cur);
}

proof fn lemma_offset_non_blank(ss: Seq<SentenceSpec>, off: int)
    requires
        sents_non_blank(ss),
    ensures
        sents_non_blank(offset_sents(ss, off)),
        offset_sents(ss, off).len() == ss.len(),
{
    let o = offset_sents(ss, off);
    assert forall|k: int| 0 <= k < o.len() implies non_blank(#[trigger] o[k].text) by {
        assert(o[k].text == ss[k].text);
    }
}

proof fn lemma_base_non_blank(segs: Seq<SegSpec>, cs: int)
    requires
        segs_non_blank(segs),
    ensures
        chunks_non_blank(base_fold(segs, cs)),
        segs.len() > 0 <==> base_fold(segs, cs).len() > 0,
    decreases segs.len(),
{
    if segs.len() > 0 {
        let pre = segs.drop_last();
        assert(segs_non_blank(pre)) by {
            assert forall|k: int| 0 <= k < pre.len() implies non_blank(#[trigger] pre[k].text) by {
                assert(pre[k] == segs[k]);
            }
        }
        lemma_base_non_blank(pre, cs);
        let out = base_fold(pre, cs);
        let seg = segs.last();
        assert(non_blank(seg.text));
        if seg.text.len() <= cs {
            lemma_push_non_blank(
                out,
                ChunkSpec { text: seg.text, start: seg.start, end: seg.end, index: out.len() as int, meta: crate::chunking::chunk::MetaSpec::Empty },
            );
        } else {
            lemma_sentence_texts_non_blank(seg.text);
            lemma_trim_empty(seg.text);
            let i = choose|i: int| 0 <= i < seg.text.len() && !is_ws(#[trigger] seg.text[i]);
            lemma_sentences_some(seg.text, 0, false, i);
            lemma_offset_non_blank(sentences_of(seg.text), seg.start);
            lemma_accumulate_non_blank(offset_sents(sentences_of(seg.text), seg.start), out, cs);
        }
        assert(base_fold(segs, cs) == seg_chunks(out, seg, cs));
    }
}

/// Law: the semantic split gives no chunk exactly when the text is blank
/// (empty or all whitespace), and every chunk it gives holds a character
/// that is not whitespace.
pub proof fn lemma_semantic_blank(t: Seq<char>, cs: int, ov: int, gs: int)
    requires
        cs >= 0,
    ensures
        semantic_chunks(t, cs, ov, gs).len() == 0 <==> trim(t).len() == 0,
        chunks_non_blank(semantic_chunks(t, cs, ov, gs)),
{
    let ss = sentences_of(t);
    let g = if gs < 1 { 1 } else { gs };
    lemma_sentence_texts_non_blank(t);
    lemma_trim_empty(t);
    if trim(t).len() == 0 {
        lemma_sentences_blank(t, 0, false);
    } else {
        let i = choose|i: int| 0 <= i < t.len() && !is_ws(#[trigger] t[i]);
        lemma_sentences_some(t, 0, false, i);
    }
    lemma_segments_non_blank(ss, cs, g);
    let segs = segments_of(ss, cs, g);
    lemma_merge_non_blank(segs, cs);
    let merged = merge_fold(segs, cs);
    lemma_base_non_blank(merged, cs);
    let base = base_fold(merged, cs);
    let r = semantic_chunks(t, cs, ov, gs);
    assert(r == overlap_phase(ss, base, cs, ov));
    assert forall|k: int| 0 <= k < r.len() implies non_blank(#[trigger] r[k].text) by {
        if ov > 0 && base.len() > 1 {
            assert(r[k] == with_overlap(ss, base, k, cs, ov));
            let c = base[k];
            if k > 0 {
                let prev = base[k - 1];
                let ps = crate::chunking::semantic::sents_within(ss, prev.start, prev.end);
                let m = crate::chunking::semantic::overlap_count(ps, ps.len() as int, 0, c.text.len() as int, cs, ov);
                if m > 0 {
                    let os = ps.subrange(ps.len() - m, ps.len() as int);
                    lemma_concat_non_blank(trim(join_texts(os)), c.text);
                }
            }
        }
    }
}

} // verus!
