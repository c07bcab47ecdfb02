//! The semantic split does not cut sentences: when every sentence fits in
//! the chunk size, every chunk but the last ends where a sentence ends; and
//! the overlap puts only whole sentences in front of a chunk.
use vstd::prelude::*;
use crate::text::{is_ws, lead_ws, lemma_trim_end_take, lemma_trim_start_skip, trail_ws, trim, trim_end, trim_start};
use crate::chunking::bounds::{lemma_sentence_texts_trimmed, texts_trimmed};
use crate::chunking::chunk::ChunkSpec;
use crate::chunking::semantic::{
    base_fold, join_texts, merge_fold, merge_step, offset_sents, overlap_count, overlap_phase, seg_emit, seg_fold, seg_init, seg_reset, seg_step, segments_of,
    semantic_chunks, sents_within, with_overlap, SegSpec, SegState,
};
use crate::chunking::sentences::{is_term, lemma_piece_end, next_stop, para_at, piece_end, sentences_from, sentences_of, SentenceSpec};

verus! {

/// The text ends with a sentence mark.
pub open spec fn ends_sentence(x: Seq<char>) -> bool {
    x.len() > 0 && is_term(x.last())
}

/// When `x[p]` is no whitespace and only whitespace follows it, the trimmed
/// text ends with `x[p]` and is at most `p + 1` long.
proof fn lemma_trim_last(x: Seq<char>, p: int)
    requires
        0 <= p < x.len(),
        !is_ws(x[p]),
        forall|j: int| p < j < x.len() ==> is_ws(#[trigger] x[j]),
    ensures
        trim(x).len() > 0,
        trim(x).len() <= p + 1,
        trim(x).last() == x[p],
{
    lemma_trim_start_skip(x);
    let l = lead_ws(x) as int;
    if l > p {
        assert(is_ws(x[p]));
    }
    let y = x.skip(l);
    lemma_trim_end_take(y);
    let tr = trail_ws(y) as int;
    let q = p - l;
    assert(y[q] == x[p]);
    if q >= y.len() - tr {
        assert(is_ws(y[q]));
    }
    if y.len() - tr - 1 > q {
        assert(y[y.len() - tr - 1] == x[y.len() - tr - 1 + l]);
    }
    assert(y.len() - tr - 1 == q);
    assert(trim(x) == y.take(y.len() - tr));
}

/// A trimmed text that is not empty starts and ends with no whitespace.
proof fn lemma_trimmed_ends(x: Seq<char>)
    requires
        trim(x) == x,
        x.len() > 0,
    ensures
        !is_ws(x[0]),
        !is_ws(x.last()),
{
    lemma_trim_start_skip(x);
    let l = lead_ws(x) as int;
    let y = x.skip(l);
    lemma_trim_end_take(y);
    assert(trim(x).len() <= y.len());
    assert(l == 0);
    assert(y =~= x);
    assert(trail_ws(y) == 0);
}

/// Every sentence of a text has some text.
pub(crate) proof fn lemma_sentences_non_empty(t: Seq<char>, p: int, b: bool)
    ensures
        forall|k: int| 0 <= k < sentences_from(t, p, b).len() ==> (#[trigger] sentences_from(t, p, b)[k]).text.len() > 0,
    decreases t.len() - p,
{
    if 0 <= p < t.len() {
        lemma_piece_end(t, p);
        let q = next_stop(t, p);
        let e = piece_end(t, q);
        let tr = trim(t.subrange(p, e));
        if q < t.len() {
            let b2 = if tr.len() > 0 { para_at(t, q) } else { b || para_at(t, q) };
            lemma_sentences_non_empty(t, e, b2);
            let rest = sentences_from(t, e, b2);
            let all = sentences_from(t, p, b);
            if tr.len() > 0 {
                assert forall|k: int| 0 <= k < all.len() implies (#[trigger] all[k]).text.len() > 0 by {
                    if k > 0 {
                        assert(all[k] == rest[k - 1]);
                    }
                }
            }
        }
    }
}

/// The sentences are not empty, trimmed and fit in `cs`.
pub open spec fn sents_fit(ss: Seq<SentenceSpec>, cs: int) -> bool {
    forall|k: int|
        0 <= k < ss.len() ==> {
            let x = (#[trigger] ss[k]).text;
            &&& x.len() > 0
            &&& trim(x) == x
            &&& x.len() <= cs
        }
}

/// The segments are not empty and fit in `cs`.
pub open spec fn segs_fit(v: Seq<SegSpec>, cs: int) -> bool {
    forall|k: int| 0 <= k < v.len() ==> (#[trigger] v[k]).text.len() > 0 && v[k].text.len() <= cs
}

/// Every segment ends with a sentence mark.
pub open spec fn segs_end(v: Seq<SegSpec>) -> bool {
    forall|k: int| 0 <= k < v.len() ==> ends_sentence(#[trigger] v[k].text)
}

/// The running segment fits and, when not empty, ends (trimmed) with a
/// sentence mark.
pub open spec fn state_ok(st: SegState, cs: int) -> bool {
    &&& st.text.len() <= cs
    &&& st.text.len() > 0 ==> ends_sentence(trim(st.text)) && trim(st.text).len() <= cs
}

/// One sentence taken by the segmenter: what it emits fits and is not
/// empty; all of it but a segment ending with the sentence itself ends with a
/// sentence mark, and the running segment is empty after such a segment.
proof fn lemma_seg_step(st: SegState, s: SentenceSpec, cs: int, gs: int)
    requires
        state_ok(st, cs),
        s.text.len() > 0,
        trim(s.text) == s.text,
        s.text.len() <= cs,
    ensures
        segs_fit(seg_step(st, s, cs, gs).1, cs),
        ({
            let r = seg_step(st, s, cs, gs);
            ||| segs_end(r.1) && (r.0.text.len() > 0 ==> trim(r.0.text).len() > 0 && trim(r.0.text).last() == s.text.last() && trim(r.0.text).len() <= cs)
            ||| r.1.len() > 0 && segs_end(r.1.drop_last()) && r.1.last().text.last() == s.text.last() && r.0.text.len() == 0
        }),
        seg_step(st, s, cs, gs).0.text.len() <= cs,
{
    lemma_trimmed_ends(s.text);
    let len = s.text.len() as int;
    let brk = s.after_break || crate::chunking::sentences::topic_shift(s.text) || (st.text.len() + len > cs && st.text.len() > 0);
    let st1 = if brk && st.text.len() > 0 { seg_reset(st) } else { st };
    let out1: Seq<SegSpec> = if brk && st.text.len() > 0 { seq![seg_emit(st)] } else { Seq::empty() };
    let text3 = st1.text + s.text + seq![' '];
    let p = st1.text.len() + len - 1;
    assert(text3[p] == s.text.last());
    assert forall|j: int| p < j < text3.len() implies is_ws(#[trigger] text3[j]) by {
        assert(text3[j] == ' ');
    }
    lemma_trim_last(text3, p);
    assert(text3.len() <= cs + 1);
    let r = seg_step(st, s, cs, gs);
    assert(segs_fit(out1, cs));
    assert(segs_end(out1));
    assert forall|k: int| 0 <= k < r.1.len() implies (#[trigger] r.1[k]).text.len() > 0 && r.1[k].text.len() <= cs by {
        if k < out1.len() {
            assert(r.1[k] == out1[k]);
        }
    }
    if r.1.len() > out1.len() {
        assert(r.1.drop_last() =~= out1);
    } else {
        assert(r.1 =~= out1);
    }
}

/// Segmenting sentences that all end with a sentence mark: every segment
/// does, and so does the running one.
proof fn lemma_seg_fold_ends(ss: Seq<SentenceSpec>, cs: int, gs: int)
    requires
        cs >= 0,
        sents_fit(ss, cs),
        forall|k: int| 0 <= k < ss.len() ==> ends_sentence(#[trigger] ss[k].text),
    ensures
        segs_fit(seg_fold(ss, cs, gs).1, cs),
        segs_end(seg_fold(ss, cs, gs).1),
        state_ok(seg_fold(ss, cs, gs).0, cs),
    decreases ss.len(),
{
    if ss.len() > 0 {
        let init = ss.drop_last();
        assert forall|k: int| 0 <= k < init.len() implies ends_sentence(#[trigger] init[k].text) by {
            assert(init[k] == ss[k]);
        }
        assert(sents_fit(init, cs)) by {
            assert forall|k: int| 0 <= k < init.len() implies {
                let x = (#[trigger] init[k]).text;
                &&& x.len() > 0
                &&& trim(x) == x
                &&& x.len() <= cs
            } by {
                assert(init[k] == ss[k]);
            }
        }
        lemma_seg_fold_ends(init, cs, gs);
        let prev = seg_fold(init, cs, gs);
        let s = ss.last();
        assert(s == ss[ss.len() - 1]);
        lemma_seg_step(prev.0, s, cs, gs);
        let step = seg_step(prev.0, s, cs, gs);
        assert(ends_sentence(s.text));
        if step.0.text.len() > 0 {
            assert(trim(step.0.text).last() == s.text.last());
        }
        assert(state_ok(step.0, cs));
        let all = prev.1 + step.1;
        assert forall|k: int| 0 <= k < all.len() implies (#[trigger] all[k]).text.len() > 0 && all[k].text.len() <= cs && ends_sentence(all[k].text) by {
            if k < prev.1.len() {
                assert(all[k] == prev.1[k]);
            } else {
                assert(all[k] == step.1[k - prev.1.len()]);
                if step.1.len() > 0 && k - prev.1.len() == step.1.len() - 1 && !segs_end(step.1) {
                    assert(step.1.drop_last().len() == step.1.len() - 1);
                }
                if k - prev.1.len() < step.1.len() - 1 {
                    assert(step.1[k - prev.1.len()] == step.1.drop_last()[k - prev.1.len()]);
                }
            }
        }
    }
}

/// Every element but the last ends with a sentence mark.
pub open spec fn all_but_last_end(v: Seq<SegSpec>) -> bool {
    forall|k: int| 0 <= k < v.len() - 1 ==> ends_sentence(#[trigger] v[k].text)
}

/// Segmenting sentences that fit, all but the last ending with a sentence
/// mark: the segments fit, and all but the last end with a sentence mark.
proof fn lemma_segments_end(ss: Seq<SentenceSpec>, cs: int, gs: int)
    requires
        cs >= 0,
        sents_fit(ss, cs),
        forall|k: int| 0 <= k < ss.len() - 1 ==> ends_sentence(#[trigger] ss[k].text),
    ensures
        segs_fit(segments_of(ss, cs, gs), cs),
        all_but_last_end(segments_of(ss, cs, gs)),
{
    if ss.len() == 0 {
        assert(trim(Seq::<char>::empty()) =~= Seq::<char>::empty());
        assert(segments_of(ss, cs, gs) =~= Seq::<SegSpec>::empty());
    } else {
        let init = ss.drop_last();
        assert forall|k: int| 0 <= k < init.len() implies ends_sentence(#[trigger] init[k].text) by {
            assert(init[k] == ss[k]);
        }
        assert(sents_fit(init, cs)) by {
            assert forall|k: int| 0 <= k < init.len() implies {
                let x = (#[trigger] init[k]).text;
                &&& x.len() > 0
                &&& trim(x) == x
                &&& x.len() <= cs
            } by {
                assert(init[k] == ss[k]);
            }
        }
        lemma_seg_fold_ends(init, cs, gs);
        let prev = seg_fold(init, cs, gs);
        let s = ss.last();
        assert(s == ss[ss.len() - 1]);
        lemma_seg_step(prev.0, s, cs, gs);
        let step = seg_step(prev.0, s, cs, gs);
        let both = prev.1 + step.1;
        assert(seg_fold(ss, cs, gs) == (step.0, both));
        let segs = segments_of(ss, cs, gs);
        if segs_end(step.1) && (step.0.text.len() > 0 ==> trim(step.0.text).len() > 0 && trim(step.0.text).len() <= cs) {
            assert forall|k: int| 0 <= k < both.len() implies (#[trigger] both[k]).text.len() > 0 && both[k].text.len() <= cs && ends_sentence(both[k].text) by {
                if k < prev.1.len() {
                    assert(both[k] == prev.1[k]);
                } else {
                    assert(both[k] == step.1[k - prev.1.len()]);
                }
            }
            if trim(step.0.text).len() > 0 {
                assert(segs == both.push(seg_emit(step.0)));
                assert forall|k: int| 0 <= k < segs.len() implies (#[trigger] segs[k]).text.len() > 0 && segs[k].text.len() <= cs by {
                    if k < both.len() {
                        assert(segs[k] == both[k]);
                    }
                }
                assert forall|k: int| 0 <= k < segs.len() - 1 implies ends_sentence(#[trigger] segs[k].text) by {
                    assert(segs[k] == both[k]);
                }
            } else {
                assert(segs == both);
            }
        } else {
            assert(trim(Seq::<char>::empty()) =~= Seq::<char>::empty());
            assert(step.0.text.len() == 0);
            assert(segs == both);
            assert forall|k: int| 0 <= k < both.len() implies (#[trigger] both[k]).text.len() > 0 && both[k].text.len() <= cs by {
                if k < prev.1.len() {
                    assert(both[k] == prev.1[k]);
                } else {
                    assert(both[k] == step.1[k - prev.1.len()]);
                }
            }
            assert forall|k: int| 0 <= k < both.len() - 1 implies ends_sentence(#[trigger] both[k].text) by {
                if k < prev.1.len() {
                    assert(both[k] == prev.1[k]);
                } else {
                    assert(both[k] == step.1[k - prev.1.len()]);
                    assert(step.1[k - prev.1.len()] == step.1.drop_last()[k - prev.1.len()]);
                }
            }
        }
    }
}

/// Merging keeps segments that fit and end with a sentence mark so.
proof fn lemma_merge_all_end(segs: Seq<SegSpec>, cs: int)
    requires
        segs_fit(segs, cs),
        segs_end(segs),
    ensures
        segs_fit(merge_fold(segs, cs), cs),
        segs_end(merge_fold(segs, cs)),
    decreases segs.len(),
{
    if segs.len() > 0 {
        let init = segs.drop_last();
        assert forall|k: int| 0 <= k < init.len() implies (#[trigger] init[k]).text.len() > 0 && init[k].text.len() <= cs && ends_sentence(init[k].text) by {
            assert(init[k] == segs[k]);
        }
        lemma_merge_all_end(init, cs);
        lemma_merge_step(merge_fold(init, cs), segs.last(), cs);
        assert(segs.last() == segs[segs.len() - 1]);
        let r = merge_fold(segs, cs);
        assert forall|k: int| 0 <= k < r.len() implies ends_sentence(#[trigger] r[k].text) by {
            if k < r.len() - 1 {
            } else {
                assert(r[k].text.last() == segs.last().text.last());
            }
        }
    }
}

/// One merge step: the segments before the last are kept; the last ends
/// like the segment taken, and all fit.
proof fn lemma_merge_step(acc: Seq<SegSpec>, seg: SegSpec, cs: int)
    requires
        segs_fit(acc, cs),
        seg.text.len() > 0,
        seg.text.len() <= cs,
    ensures
        segs_fit(merge_step(acc, seg, cs), cs),
        merge_step(acc, seg, cs).len() > 0,
        merge_step(acc, seg, cs).last().text.last() == seg.text.last(),
        forall|k: int| 0 <= k < merge_step(acc, seg, cs).len() - 1 ==> #[trigger] merge_step(acc, seg, cs)[k] == acc[k],
{
    let r = merge_step(acc, seg, cs);
    if acc.len() > 0 && acc.last().text.len() < cs / 4 && acc.last().text.len() + 1 + seg.text.len() <= cs {
        let m = acc.last().text + seq![' '] + seg.text;
        assert(m.last() == seg.text.last());
        assert forall|k: int| 0 <= k < r.len() implies (#[trigger] r[k]).text.len() > 0 && r[k].text.len() <= cs by {
            if k < r.len() - 1 {
                assert(r[k] == acc[k]);
            }
        }
    } else {
        assert forall|k: int| 0 <= k < r.len() implies (#[trigger] r[k]).text.len() > 0 && r[k].text.len() <= cs by {
            if k < r.len() - 1 {
                assert(r[k] == acc[k]);
            }
        }
    }
}

/// Merging segments that fit, all but the last ending with a sentence mark:
/// the merged ones fit, and all but the last end with a sentence mark.
proof fn lemma_merge_end(segs: Seq<SegSpec>, cs: int)
    requires
        segs_fit(segs, cs),
        all_but_last_end(segs),
    ensures
        segs_fit(merge_fold(segs, cs), cs),
        all_but_last_end(merge_fold(segs, cs)),
{
    if segs.len() > 0 {
        let init = segs.drop_last();
        assert forall|k: int| 0 <= k < init.len() implies (#[trigger] init[k]).text.len() > 0 && init[k].text.len() <= cs && ends_sentence(init[k].text) by {
            assert(init[k] == segs[k]);
        }
        lemma_merge_all_end(init, cs);
        let acc = merge_fold(init, cs);
        assert(segs.last() == segs[segs.len() - 1]);
        lemma_merge_step(acc, segs.last(), cs);
        let r = merge_fold(segs, cs);
        assert forall|k: int| 0 <= k < r.len() - 1 implies ends_sentence(#[trigger] r[k].text) by {
            assert(r[k] == acc[k]);
        }
    }
}

/// Segments that fit become one chunk each, with the same text.
proof fn lemma_base_fits(segs: Seq<SegSpec>, cs: int)
    requires
        segs_fit(segs, cs),
    ensures
        base_fold(segs, cs).len() == segs.len(),
        forall|k: int| 0 <= k < segs.len() ==> (#[trigger] base_fold(segs, cs)[k]).text == segs[k].text,
    decreases segs.len(),
{
    if segs.len() > 0 {
        let init = segs.drop_last();
        assert forall|k: int| 0 <= k < init.len() implies (#[trigger] init[k]).text.len() > 0 && init[k].text.len() <= cs by {
            assert(init[k] == segs[k]);
        }
        lemma_base_fits(init, cs);
        assert(segs.last() == segs[segs.len() - 1]);
        let r = base_fold(segs, cs);
        assert forall|k: int| 0 <= k < segs.len() implies (#[trigger] r[k]).text == segs[k].text by {
            if k < init.len() {
                assert(r[k] == base_fold(init, cs)[k]);
                assert(init[k] == segs[k]);
            }
        }
    }
}

/// Law: when every sentence of the text fits in the chunk size `cs` and
/// every sentence but the last ends with a sentence mark, the semantic split
/// cuts no sentence: every chunk but the last ends with a sentence mark
/// (the overlap only adds whole sentences in front).
pub proof fn lemma_semantic_sentence_ends(t: Seq<char>, cs: int, ov: int, gs: int)
    requires
        forall|k: int| 0 <= k < sentences_of(t).len() ==> (#[trigger] sentences_of(t)[k]).text.len() <= cs,
        forall|k: int| 0 <= k < sentences_of(t).len() - 1 ==> ends_sentence(#[trigger] sentences_of(t)[k].text),
    ensures
        forall|i: int|
            0 <= i < semantic_chunks(t, cs, ov, gs).len() - 1 ==> ends_sentence(
                #[trigger] semantic_chunks(t, cs, ov, gs)[i].text,
            ),
{
    let ss = sentences_of(t);
    let g = if gs < 1 { 1 } else { gs };
    lemma_sentence_texts_trimmed(t, 0, false);
    lemma_sentences_non_empty(t, 0, false);
    if ss.len() == 0 {
        assert(trim(Seq::<char>::empty()) =~= Seq::<char>::empty());
        assert(segments_of(ss, cs, g) =~= Seq::<SegSpec>::empty());
        assert(merge_fold(segments_of(ss, cs, g), cs) =~= Seq::<SegSpec>::empty());
        assert(base_fold(merge_fold(segments_of(ss, cs, g), cs), cs) =~= Seq::<ChunkSpec>::empty());
    } else {
        assert(ss[0].text.len() > 0);
        assert(sents_fit(ss, cs)) by {
            assert forall|k: int| 0 <= k < ss.len() implies {
                let x = (#[trigger] ss[k]).text;
                &&& x.len() > 0
                &&& trim(x) == x
                &&& x.len() <= cs
            } by {
                assert(trim(ss[k].text) == ss[k].text);
            }
        }
        lemma_segments_end(ss, cs, g);
        let segs = segments_of(ss, cs, g);
        lemma_merge_end(segs, cs);
        let merged = merge_fold(segs, cs);
        lemma_base_fits(merged, cs);
        let base = base_fold(merged, cs);
        let r = semantic_chunks(t, cs, ov, gs);
        assert(r == overlap_phase(ss, base, cs, ov));
        assert forall|i: int| 0 <= i < r.len() - 1 implies ends_sentence(#[trigger] r[i].text) by {
            assert(base[i].text == merged[i].text);
            assert(ends_sentence(merged[i].text));
            if ov > 0 && base.len() > 1 {
                let c = with_overlap(ss, base, i, cs, ov);
                assert(r[i] == c);
                assert(c.text.last() == base[i].text.last());
            }
        }
    }
}

/// The chunks of the semantic split before the overlap is put in front.
pub open spec fn semantic_base(t: Seq<char>, cs: int, gs: int) -> Seq<ChunkSpec> {
    let g = if gs < 1 { 1 } else { gs };
    base_fold(merge_fold(segments_of(sentences_of(t), cs, g), cs), cs)
}

/// `own` with the last `m` sentences of `ps`, joined and trimmed, in front
/// (`own` alone when `m` is 0).
pub open spec fn sentences_before(ps: Seq<SentenceSpec>, m: int, own: Seq<char>) -> Seq<char> {
    if m == 0 {
        own
    } else {
        trim(join_texts(ps.subrange(ps.len() - m, ps.len() as int))) + own
    }
}

/// Law: the overlap puts whole sentences of the text in front of a chunk:
/// each chunk after the first is its own text, or the trimmed join of the last
/// few of the text's sentences that lie within the chunk before it, followed
/// by its own text.
pub proof fn lemma_overlap_whole_sentences(t: Seq<char>, cs: int, ov: int, gs: int, i: int)
    requires
        0 < i < semantic_chunks(t, cs, ov, gs).len(),
    ensures
        ({
            let base = semantic_base(t, cs, gs);
            let ps = sents_within(sentences_of(t), base[i - 1].start, base[i - 1].end);
            exists|m: int|
                0 <= m <= ps.len() && semantic_chunks(t, cs, ov, gs)[i].text == #[trigger] sentences_before(
                    ps,
                    m,
                    base[i].text,
                )
        }),
{
    let base = semantic_base(t, cs, gs);
    let ss = sentences_of(t);
    let r = semantic_chunks(t, cs, ov, gs);
    assert(r == overlap_phase(ss, base, cs, ov));
    let ps = sents_within(ss, base[i - 1].start, base[i - 1].end);
    if ov > 0 && base.len() > 1 {
        let c = base[i];
        let m = overlap_count(ps, ps.len() as int, 0, c.text.len() as int, cs, ov);
        assert(r[i] == with_overlap(ss, base, i, cs, ov));
        crate::chunking::bounds::lemma_overlap_total(ps, ps.len() as int, 0, c.text.len() as int, cs, ov);
        if m > 0 {
            assert(r[i].text == sentences_before(ps, m, base[i].text));
        } else {
            assert(r[i].text == sentences_before(ps, 0, base[i].text));
        }
    } else {
        assert(r[i].text == sentences_before(ps, 0, base[i].text));
    }
}

} // verus!
