//! Topic shifts in the semantic split: a sentence that opens with a
//! topic-shift phrase starts a new segment.
use vstd::prelude::*;
use crate::chunking::semantic::{lemma_sentences_ok, seg_emit, seg_fold, seg_reset, seg_step, segments_of, sents_ok, SegSpec, SegState};
use crate::chunking::sentences::{sentences_of, topic_shift, SentenceSpec};

verus! {

/// Sentences `a..=b` of `ss`, none after the first opening with a
/// topic-shift phrase.
pub open spec fn run_ok(ss: Seq<SentenceSpec>, a: int, b: int) -> bool {
    &&& 0 <= a <= b < ss.len()
    &&& forall|k: int| a < k <= b ==> !topic_shift(#[trigger] ss[k].text)
}

/// The segment runs from the start of sentence `a` to the end of sentence
/// `b`, over a run of sentences with no topic shift after the first.
pub open spec fn seg_run(ss: Seq<SentenceSpec>, seg: SegSpec, a: int, b: int) -> bool {
    &&& run_ok(ss, a, b)
    &&& seg.start == ss[a].start
    &&& seg.end == ss[b].start + ss[b].text.len()
}

spec fn has_run(ss: Seq<SentenceSpec>, seg: SegSpec) -> bool {
    exists|a: int, b: int| #[trigger] seg_run(ss, seg, a, b)
}

spec fn state_run(ss: Seq<SentenceSpec>, st: SegState) -> bool {
    st.text.len() > 0 ==> exists|a: int| #[trigger] seg_run(ss, seg_emit(st), a, ss.len() - 1)
}

proof fn lemma_run_extend(ss: Seq<SentenceSpec>, seg: SegSpec, a: int, b: int)
    requires
        ss.len() > 0,
        seg_run(ss.drop_last(), seg, a, b),
    ensures
        seg_run(ss, seg, a, b),
{
    let pre = ss.drop_last();
    assert(pre[a] == ss[a]);
    assert(pre[b] == ss[b]);
    assert forall|k: int| a < k <= b implies !topic_shift(#[trigger] ss[k].text) by {
        assert(pre[k] == ss[k]);
    }
}

proof fn lemma_seg_fold_runs(ss: Seq<SentenceSpec>, cs: int, gs: int)
    requires
        cs >= 0,
    ensures
        state_run(ss, seg_fold(ss, cs, gs).0),
        forall|i: int| 0 <= i < seg_fold(ss, cs, gs).1.len() ==> has_run(ss, #[trigger] seg_fold(ss, cs, gs).1[i]),
    decreases ss.len(),
{
    if ss.len() > 0 {
        let n = ss.len() as int;
        let pre = ss.drop_last();
        lemma_seg_fold_runs(pre, cs, gs);
        let prev = seg_fold(pre, cs, gs);
        let st = prev.0;
        let s = ss.last();
        assert(s == ss[n - 1]);
        let len = s.text.len() as int;
        let brk = s.after_break || topic_shift(s.text) || (st.text.len() + len > cs && st.text.len() > 0);
        let st1 = if brk && st.text.len() > 0 { seg_reset(st) } else { st };
        let start2 = if st1.text.len() == 0 { s.start } else { st1.start };
        let text3 = st1.text + s.text + seq![' '];
        let short3 = if len < 50 { st1.short + 1 } else { 0 };
        let st3 = SegState { text: text3, start: start2, end: s.start + len, short: short3 };
        // the running segment after this sentence has a run ending here
        let a3: int = if st1.text.len() == 0 {
            n - 1
        } else {
            choose|a: int| #[trigger] seg_run(pre, seg_emit(st), a, n - 2)
        };
        if st1.text.len() == 0 {
            assert(seg_run(ss, seg_emit(st3), n - 1, n - 1));
        } else {
            assert(st1 == st);
            assert(!topic_shift(s.text));
            lemma_run_extend(ss, seg_emit(st), a3, n - 2);
            assert forall|k: int| a3 < k <= n - 1 implies !topic_shift(#[trigger] ss[k].text) by {}
            assert(seg_run(ss, seg_emit(st3), a3, n - 1));
        }
        assert(text3.len() > 0);
        if brk && st.text.len() > 0 {
            let a0 = choose|a: int| #[trigger] seg_run(pre, seg_emit(st), a, n - 2);
            lemma_run_extend(ss, seg_emit(st), a0, n - 2);
            assert(has_run(ss, seg_emit(st)));
        }
        let step = seg_step(st, s, cs, gs);
        assert(state_run(ss, step.0));
        assert forall|i: int| 0 <= i < step.1.len() implies has_run(ss, #[trigger] step.1[i]) by {}
        let all = prev.1 + step.1;
        assert(seg_fold(ss, cs, gs) == (step.0, all));
        assert forall|i: int| 0 <= i < all.len() implies has_run(ss, #[trigger] all[i]) by {
            if i < prev.1.len() {
                assert(all[i] == prev.1[i]);
                assert(has_run(pre, prev.1[i]));
                let (a, b) = choose|a: int, b: int| #[trigger] seg_run(pre, prev.1[i], a, b);
                lemma_run_extend(ss, prev.1[i], a, b);
            } else {
                assert(all[i] == step.1[i - prev.1.len()]);
            }
        }
    }
}

proof fn lemma_sentence_chain(ss: Seq<SentenceSpec>, lo: int, hi: int, i: int, j: int)
    requires
        sents_ok(ss, lo, hi),
        0 <= i < j < ss.len(),
    ensures
        ss[i].start + ss[i].text.len() <= ss[j].start,
    decreases j - i,
{
    if j > i + 1 {
        lemma_sentence_chain(ss, lo, hi, i, j - 1);
    }
}

/// Law: a sentence that opens with a topic-shift phrase (`topic_shift`) starts
/// a new semantic segment: no segment spans both it and the sentence before it.
pub proof fn lemma_topic_shift_starts_segment(t: Seq<char>, cs: int, gs: int)
    requires
        cs >= 0,
    ensures
        ({
            let ss = sentences_of(t);
            let segs = segments_of(ss, cs, gs);
            forall|k: int, i: int|
                0 < k < ss.len() && topic_shift(#[trigger] ss[k].text) && 0 <= i < segs.len() ==> !(
                #[trigger] segs[i].start <= ss[k - 1].start && ss[k].start + ss[k].text.len() <= segs[i].end)
        }),
{
    let ss = sentences_of(t);
    lemma_sentences_ok(t, 0, false);
    lemma_seg_fold_runs(ss, cs, gs);
    let f = seg_fold(ss, cs, gs);
    let segs = segments_of(ss, cs, gs);
    assert forall|i: int| 0 <= i < segs.len() implies has_run(ss, #[trigger] segs[i]) by {
        if i < f.1.len() {
            assert(segs[i] == f.1[i]);
        } else {
            assert(segs[i] == seg_emit(f.0));
        }
    }
    assert forall|k: int, i: int|
        0 < k < ss.len() && topic_shift(#[trigger] ss[k].text) && 0 <= i < segs.len() implies !(
        #[trigger] segs[i].start <= ss[k - 1].start && ss[k].start + ss[k].text.len() <= segs[i].end) by {
        assert(has_run(ss, segs[i]));
        let (a, b) = choose|a: int, b: int| #[trigger] seg_run(ss, segs[i], a, b);
        if segs[i].start <= ss[k - 1].start && ss[k].start + ss[k].text.len() <= segs[i].end {
            if a >= k {
                lemma_sentence_chain(ss, 0, t.len() as int, k - 1, a);
            }
            if b < k {
                lemma_sentence_chain(ss, 0, t.len() as int, b, k);
            }
            assert(a < k <= b);
        }
    }
}

} // verus!
