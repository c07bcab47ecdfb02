//! Grouping sentences at cut points: one segment per cut, then the rest,
//! each made of the sentences from just after the previous cut.
use vstd::prelude::*;
use crate::text::{is_ws, lead_ws, lemma_trim_empty, lemma_trim_end_take, lemma_trim_start_skip, trail_ws, trim, trim_end, trim_start};
use crate::chunking::agentic::{cut_fold, grouped_segments};
use crate::chunking::bounds::lemma_sentence_texts_trimmed;
use crate::chunking::points::strictly_increasing;
use crate::chunking::semantic::join_texts;
use crate::chunking::sentence_ends::lemma_sentences_non_empty;
use crate::chunking::sentences::{sentences_of, SentenceSpec};

verus! {

/// Where group `k` begins: at the first sentence, or just after cut `k - 1`.
pub open spec fn group_begin(cuts: Seq<usize>, k: int) -> int {
    if k == 0 {
        0
    } else {
        cuts[k - 1] + 1
    }
}

/// Cuts that rise strictly and name sentences among the first `n`.
pub open spec fn cuts_within(cuts: Seq<usize>, n: int) -> bool {
    &&& strictly_increasing(cuts)
    &&& forall|i: int| 0 <= i < cuts.len() ==> #[trigger] cuts[i] < n
}

/// The segment of the sentences `ss[a..b]`: their texts joined and trimmed,
/// from the start of the first to the end of the last.
pub open spec fn group_of(ss: Seq<SentenceSpec>, a: int, b: int) -> (Seq<char>, int, int) {
    (trim(join_texts(ss.subrange(a, b))), ss[a].start, ss[b - 1].start + ss[b - 1].text.len())
}

/// Every sentence has a character that is not whitespace.
spec fn all_non_blank(ss: Seq<SentenceSpec>) -> bool {
    forall|k: int| 0 <= k < ss.len() ==> trim(#[trigger] ss[k].text).len() > 0
}

pub(crate) proof fn lemma_join_non_blank(ss: Seq<SentenceSpec>)
    requires
        ss.len() > 0,
        trim(ss.last().text).len() > 0,
    ensures
        trim(join_texts(ss)).len() > 0,
{
    let x = ss.last().text;
    let pre = join_texts(ss.drop_last());
    lemma_trim_empty(x);
    let i = choose|i: int| 0 <= i < x.len() && !is_ws(#[trigger] x[i]);
    let j = join_texts(ss);
    assert(j == pre + x);
    assert(j[pre.len() + i] == x[i]);
    lemma_trim_empty(j);
}

proof fn lemma_cut_fold_groups(ss: Seq<SentenceSpec>, cuts: Seq<usize>)
    requires
        all_non_blank(ss),
        cuts_within(cuts, ss.len() as int),
    ensures
        cut_fold(ss, cuts).1 == group_begin(cuts, cuts.len() as int),
        cut_fold(ss, cuts).0.len() == cuts.len(),
        forall|k: int|
            0 <= k < cuts.len() ==> #[trigger] cut_fold(ss, cuts).0[k] == group_of(ss, group_begin(cuts, k), cuts[k] + 1),
    decreases cuts.len(),
{
    if cuts.len() > 0 {
        let m = cuts.len() as int;
        let pre = cuts.drop_last();
        assert(cuts_within(pre, ss.len() as int)) by {
            assert forall|i: int| 0 <= i < pre.len() implies #[trigger] pre[i] < ss.len() by {
                assert(pre[i] == cuts[i]);
            }
        }
        lemma_cut_fold_groups(ss, pre);
        let st = cut_fold(ss, pre);
        let c = cuts.last() as int;
        assert(c == cuts[m - 1]);
        if m > 1 {
            assert(pre[m - 2] == cuts[m - 2]);
            assert(cuts[m - 2] < cuts[m - 1]);
        }
        assert(st.1 <= c < ss.len());
        let a = st.1;
        let sub = ss.subrange(a, c + 1);
        assert(sub.last() == ss[c]);
        lemma_join_non_blank(sub);
        let r = cut_fold(ss, cuts);
        assert(r.0 == st.0.push(group_of(ss, a, c + 1)));
        assert forall|k: int| 0 <= k < m implies #[trigger] r.0[k] == group_of(ss, group_begin(cuts, k), cuts[k] + 1) by {
            if k < m - 1 {
                assert(r.0[k] == st.0[k]);
                assert(pre[k] == cuts[k]);
                if k > 0 {
                    assert(pre[k - 1] == cuts[k - 1]);
                }
            } else if k > 0 {
                assert(pre[k - 1] == cuts[k - 1]);
            }
        }
    }
}

/// Law: with cuts that rise strictly and name sentences of the text, the
/// sentences are grouped into one segment per cut, running from just after
/// the previous cut to the cut itself, followed by one segment of the
/// sentences after the last cut when there are any; no segment is dropped.
pub proof fn lemma_group_by_cuts(t: Seq<char>, cuts: Seq<usize>)
    requires
        cuts_within(cuts, sentences_of(t).len() as int),
    ensures
        ({
            let ss = sentences_of(t);
            let g = grouped_segments(ss, cuts);
            let m = cuts.len() as int;
            let b = group_begin(cuts, m);
            &&& g.len() == m + (if b < ss.len() { 1int } else { 0int })
            &&& forall|k: int| 0 <= k < m ==> #[trigger] g[k] == group_of(ss, group_begin(cuts, k), cuts[k] + 1)
            &&& b < ss.len() ==> g[m] == group_of(ss, b, ss.len() as int)
        }),
{
    let ss = sentences_of(t);
    lemma_sentence_texts_trimmed(t, 0, false);
    lemma_sentences_non_empty(t, 0, false);
    assert(all_non_blank(ss)) by {
        assert forall|k: int| 0 <= k < ss.len() implies trim(#[trigger] ss[k].text).len() > 0 by {
            assert(trim(ss[k].text) == ss[k].text);
        }
    }
    lemma_cut_fold_groups(ss, cuts);
    let st = cut_fold(ss, cuts);
    let m = cuts.len() as int;
    let b = group_begin(cuts, m);
    let g = grouped_segments(ss, cuts);
    if b < ss.len() {
        let sub = ss.subrange(b, ss.len() as int);
        assert(sub.last() == ss[ss.len() - 1]);
        lemma_join_non_blank(sub);
        assert(g == st.0.push(group_of(ss, b, ss.len() as int)));
        assert forall|k: int| 0 <= k < m implies #[trigger] g[k] == group_of(ss, group_begin(cuts, k), cuts[k] + 1) by {
            assert(g[k] == st.0[k]);
        }
    }
}

/// The group texts, one after the other.
pub open spec fn concat_groups(g: Seq<(Seq<char>, int, int)>) -> Seq<char>
    decreases g.len(),
{
    if g.len() == 0 {
        Seq::empty()
    } else {
        concat_groups(g.drop_last()) + g.last().0
    }
}

proof fn lemma_join_append(a: Seq<SentenceSpec>, b: Seq<SentenceSpec>)
    ensures
        join_texts(a + b) == join_texts(a) + join_texts(b),
    decreases b.len(),
{
    if b.len() == 0 {
        assert(a + b =~= a);
    } else {
        lemma_join_append(a, b.drop_last());
        assert((a + b).drop_last() =~= a + b.drop_last());
    }
}

/// A trimmed text that is not empty starts and ends with a character that
/// is not whitespace.
pub(crate) proof fn lemma_trimmed_ends(x: Seq<char>)
    requires
        x.len() > 0,
        trim(x) == x,
    ensures
        !is_ws(x[0]),
        !is_ws(x.last()),
{
    lemma_trim_start_skip(x);
    let u = trim_start(x);
    lemma_trim_end_take(u);
    if is_ws(x[0]) {
        assert(lead_ws(x) >= 1);
        assert(trim(x).len() < x.len());
    }
    if lead_ws(x) == 0 {
        assert(u =~= x);
        if is_ws(x.last()) {
            assert(trail_ws(u) >= 1);
        }
    }
}

proof fn lemma_join_ends(ss: Seq<SentenceSpec>)
    requires
        ss.len() > 0,
        forall|k: int| 0 <= k < ss.len() ==> (#[trigger] ss[k]).text.len() > 0,
    ensures
        join_texts(ss).len() > 0,
        join_texts(ss)[0] == ss[0].text[0],
        join_texts(ss).last() == ss.last().text.last(),
    decreases ss.len(),
{
    if ss.len() > 1 {
        lemma_join_ends(ss.drop_last());
        assert(ss.drop_last()[0] == ss[0]);
    } else {
        assert(join_texts(ss.drop_last()) =~= Seq::<char>::empty());
    }
}

/// The join of trimmed sentence texts needs no trimming.
proof fn lemma_join_trimmed(ss: Seq<SentenceSpec>)
    requires
        ss.len() > 0,
        forall|k: int| 0 <= k < ss.len() ==> (#[trigger] ss[k]).text.len() > 0 && trim(ss[k].text) == ss[k].text,
    ensures
        trim(join_texts(ss)) == join_texts(ss),
{
    lemma_join_ends(ss);
    lemma_trimmed_ends(ss[0].text);
    lemma_trimmed_ends(ss.last().text);
    let j = join_texts(ss);
    lemma_trim_start_skip(j);
    assert(trim_start(j) =~= j);
    lemma_trim_end_take(j);
    assert(trim_end(j) =~= j);
}

proof fn lemma_groups_prefix(ss: Seq<SentenceSpec>, cuts: Seq<usize>, g: Seq<(Seq<char>, int, int)>, k: int)
    requires
        0 <= k <= cuts.len(),
        g.len() >= cuts.len(),
        cuts_within(cuts, ss.len() as int),
        forall|i: int| 0 <= i < cuts.len() ==> #[trigger] g[i] == group_of(ss, group_begin(cuts, i), cuts[i] + 1),
        forall|a: int, b: int|
            0 <= a < b <= ss.len() ==> trim(join_texts(ss.subrange(a, b))) == join_texts(ss.subrange(a, b)),
    ensures
        0 <= group_begin(cuts, k) <= ss.len(),
        concat_groups(g.take(k)) == join_texts(ss.subrange(0, group_begin(cuts, k))),
    decreases k,
{
    if k == 0 {
        assert(g.take(0) =~= Seq::<(Seq<char>, int, int)>::empty());
        assert(ss.subrange(0, 0) =~= Seq::<SentenceSpec>::empty());
    } else {
        lemma_groups_prefix(ss, cuts, g, k - 1);
        let b0 = group_begin(cuts, k - 1);
        let c = cuts[k - 1] + 1;
        if k > 1 {
            assert(cuts[k - 2] < cuts[k - 1]);
        }
        assert(g.take(k).drop_last() =~= g.take(k - 1));
        assert(g.take(k).last() == g[k - 1]);
        lemma_join_append(ss.subrange(0, b0), ss.subrange(b0, c));
        assert(ss.subrange(0, b0) + ss.subrange(b0, c) =~= ss.subrange(0, c));
    }
}

/// Law: the segments that cuts make of a text's sentences hold, one after the
/// other, exactly the texts of all its sentences: nothing is lost or repeated.
pub proof fn lemma_group_texts_concat(t: Seq<char>, cuts: Seq<usize>)
    requires
        cuts_within(cuts, sentences_of(t).len() as int),
    ensures
        concat_groups(grouped_segments(sentences_of(t), cuts)) == join_texts(sentences_of(t)),
{
    let ss = sentences_of(t);
    let n = ss.len() as int;
    let m = cuts.len() as int;
    lemma_group_by_cuts(t, cuts);
    lemma_sentence_texts_trimmed(t, 0, false);
    lemma_sentences_non_empty(t, 0, false);
    let g = grouped_segments(ss, cuts);
    assert forall|a: int, b: int| 0 <= a < b <= n implies trim(join_texts(ss.subrange(a, b))) == join_texts(ss.subrange(a, b)) by {
        let sub = ss.subrange(a, b);
        assert forall|k: int| 0 <= k < sub.len() implies (#[trigger] sub[k]).text.len() > 0 && trim(sub[k].text) == sub[k].text by {
            assert(sub[k] == ss[a + k]);
        }
        lemma_join_trimmed(sub);
    }
    lemma_groups_prefix(ss, cuts, g, m);
    let b = group_begin(cuts, m);
    if b < n {
        assert(g.drop_last() =~= g.take(m));
        lemma_join_append(ss.subrange(0, b), ss.subrange(b, n));
        assert(ss.subrange(0, b) + ss.subrange(b, n) =~= ss.subrange(0, n));
    } else {
        assert(g =~= g.take(m));
    }
    assert(ss.subrange(0, n) =~= ss);
}

} // verus!
