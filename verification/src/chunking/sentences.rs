//! Sentence segmentation (Chinese and Western punctuation) and topic-shift detection.
use vstd::prelude::*;
use crate::text::{chars_of, lowercase, to_lowercase_chars, first_non_ws, is_ws, lemma_trim_start_skip, matches_at, trim, trim_start, trimmed_slice};

verus! {

/// Sentence-ending punctuation: `。！？.!?`.
pub open spec fn is_term(c: char) -> bool {
    c == '。' || c == '！' || c == '？' || c == '.' || c == '!' || c == '?'
}

/// A paragraph break (`"\n\n"`) starts at `p`.
pub open spec fn para_at(t: Seq<char>, p: int) -> bool {
    0 <= p && p + 1 < t.len() && t[p] == '\n' && t[p + 1] == '\n'
}

/// Position `p` ends a piece: a paragraph break or a sentence-ending mark.
pub open spec fn stop_at(t: Seq<char>, p: int) -> bool {
    para_at(t, p) || (0 <= p < t.len() && is_term(t[p]))
}

/// The first position at or after `p` that ends a piece (`t.len()` when none does).
pub open spec fn next_stop(t: Seq<char>, p: int) -> int
    decreases t.len() - p,
{
    if p >= t.len() {
        t.len() as int
    } else if stop_at(t, p) {
        p
    } else {
        next_stop(t, p + 1)
    }
}

/// Skips spaces and tabs from `j`.
pub open spec fn skip_blanks(t: Seq<char>, j: int) -> int
    decreases t.len() - j,
{
    if 0 <= j < t.len() && (t[j] == ' ' || t[j] == '\t') {
        skip_blanks(t, j + 1)
    } else {
        j
    }
}

/// Takes one newline at `j` along, unless it starts a paragraph break.
pub open spec fn absorb_newline(t: Seq<char>, j: int) -> int {
    if 0 <= j < t.len() && t[j] == '\n' && (j + 1 >= t.len() || t[j + 1] != '\n') {
        j + 1
    } else {
        j
    }
}

/// The (exclusive) end of the piece whose stop is at `q`: a paragraph break
/// takes both newlines; a sentence mark takes the spaces and tabs after it and
/// then one lone newline.
pub open spec fn piece_end(t: Seq<char>, q: int) -> int {
    if q >= t.len() {
        t.len() as int
    } else if para_at(t, q) {
        q + 2
    } else {
        absorb_newline(t, skip_blanks(t, q + 1))
    }
}

pub proof fn lemma_next_stop(t: Seq<char>, p: int)
    requires
        0 <= p <= t.len(),
    ensures
        p <= next_stop(t, p) <= t.len(),
        next_stop(t, p) < t.len() ==> stop_at(t, next_stop(t, p)),
        forall|k: int| p <= k < next_stop(t, p) ==> !stop_at(t, k),
    decreases t.len() - p,
{
    if p < t.len() && !stop_at(t, p) {
        lemma_next_stop(t, p + 1);
    }
}

pub proof fn lemma_skip_blanks(t: Seq<char>, j: int)
    requires
        0 <= j <= t.len(),
    ensures
        j <= skip_blanks(t, j) <= t.len(),
    decreases t.len() - j,
{
    if j < t.len() && (t[j] == ' ' || t[j] == '\t') {
        lemma_skip_blanks(t, j + 1);
    }
}

pub proof fn lemma_piece_end(t: Seq<char>, p: int)
    requires
        0 <= p < t.len(),
    ensures
        p < piece_end(t, next_stop(t, p)) <= t.len(),
        next_stop(t, p) < piece_end(t, next_stop(t, p)) || next_stop(t, p) == t.len(),
{
    lemma_next_stop(t, p);
    let q = next_stop(t, p);
    if q < t.len() && !para_at(t, q) {
        lemma_skip_blanks(t, q + 1);
    }
}

/// A sentence: its trimmed text, the offset (in characters) where its raw
/// piece starts, and whether it follows a paragraph break.
pub struct SentenceSpec {
    pub text: Seq<char>,
    pub start: int,
    pub after_break: bool,
}

/// The sentences of `t[start..]`, where `brk` says whether a paragraph break
/// came just before. Pieces run up to each stop (see `piece_end`); a piece
/// whose trimmed text is empty yields no sentence, but a paragraph break that
/// ends it still counts for the next sentence.
pub open spec fn sentences_from(t: Seq<char>, start: int, brk: bool) -> Seq<SentenceSpec>
    decreases t.len() - start,
{
    if start < 0 || start >= t.len() {
        Seq::empty()
    } else {
        let q = next_stop(t, start);
        let e = piece_end(t, q);
        let tr = trim(t.subrange(start, e));
        proof {
            lemma_piece_end(t, start);
        }
        if q >= t.len() {
            if tr.len() > 0 {
                seq![SentenceSpec { text: tr, start, after_break: brk }]
            } else {
                Seq::empty()
            }
        } else if tr.len() > 0 {
            seq![SentenceSpec { text: tr, start, after_break: brk }] + sentences_from(
                t,
                e,
                para_at(t, q),
            )
        } else {
            sentences_from(t, e, brk || para_at(t, q))
        }
    }
}

/// The sentences of a text.
pub open spec fn sentences_of(t: Seq<char>) -> Seq<SentenceSpec> {
    sentences_from(t, 0, false)
}

/// A sentence of a text, as produced by `split_sentences`.
pub struct Sentence {
    pub text: Vec<char>,
    pub start: usize,
    pub after_paragraph_break: bool,
}

impl View for Sentence {
    type V = SentenceSpec;

    open spec fn view(&self) -> SentenceSpec {
        SentenceSpec {
            text: self.text@,
            start: self.start as int,
            after_break: self.after_paragraph_break,
        }
    }
}

/// The views of a list of sentences.
pub open spec fn sents_view(v: Seq<Sentence>) -> Seq<SentenceSpec> {
    v.map_values(|s: Sentence| s@)
}

fn is_terminal(c: char) -> (r: bool)
    ensures
        r == is_term(c),
{
    c == '。' || c == '！' || c == '？' || c == '.' || c == '!' || c == '?'
}

proof fn lemma_stop_skip(t: Seq<char>, a: int, b: int)
    requires
        0 <= a <= b <= t.len(),
        forall|k: int| a <= k < b ==> !stop_at(t, k),
    ensures
        next_stop(t, a) == next_stop(t, b),
    decreases b - a,
{
    if a < b {
        lemma_stop_skip(t, a + 1, b);
    }
}

proof fn lemma_skip_blanks_run(t: Seq<char>, j0: int, j: int)
    requires
        0 <= j0 <= j <= t.len(),
        forall|k: int| j0 <= k < j ==> (t[k] == ' ' || t[k] == '\t'),
    ensures
        skip_blanks(t, j0) == skip_blanks(t, j),
    decreases j - j0,
{
    if j0 < j {
        lemma_skip_blanks_run(t, j0 + 1, j);
    }
}

proof fn lemma_sents_view_push(v: Seq<Sentence>, s: Sentence)
    ensures
        sents_view(v.push(s)) == sents_view(v).push(s@),
{
    assert(sents_view(v.push(s)) =~= sents_view(v).push(s@));
}

/// Splits a text into sentences at `。！？.!?` and at paragraph breaks,
/// exactly as `sentences_of` describes.
pub fn split_sentence_chars(text: &[char]) -> (r: Vec<Sentence>)
    ensures
        sents_view(r@) == sentences_of(text@),
{
    let ghost t = text@;
    let total = text.len();
    let mut sentences: Vec<Sentence> = Vec::new();
    let mut current_start: usize = 0;
    let mut after_para_break = false;
    let mut i: usize = 0;
    proof {
        assert(sents_view(sentences@) =~= Seq::<SentenceSpec>::empty());
        assert(Seq::<SentenceSpec>::empty() + sentences_of(t) =~= sentences_of(t));
    }
    while i < total
        invariant
            t == text@,
            total == t.len(),
            current_start <= i <= total,
            forall|k: int| current_start <= k < i ==> !stop_at(t, k),
            sents_view(sentences@) + sentences_from(t, current_start as int, after_para_break)
                == sentences_of(t),
        decreases total - i,
    {
        let ch = text[i];
        if ch == '\n' && i + 1 < total && text[i + 1] == '\n' {
            let end = i + 2;
            proof {
                lemma_stop_skip(t, current_start as int, i as int);
                assert(para_at(t, i as int));
                assert(next_stop(t, current_start as int) == i);
                assert(piece_end(t, i as int) == end);
            }
            let tr = trimmed_slice(text, current_start, end);
            let ghost old_out = sents_view(sentences@);
            let ghost brk = after_para_break;
            if tr.len() > 0 {
                let s = Sentence { text: tr, start: current_start, after_paragraph_break: after_para_break };
                proof {
                    lemma_sents_view_push(sentences@, s);
                }
                sentences.push(s);
                proof {
                    assert(sents_view(sentences@) + sentences_from(t, end as int, true) =~= old_out
                        + sentences_from(t, current_start as int, brk));
                }
            }
            after_para_break = true;
            current_start = end;
            i = end;
            continue;
        }
        if is_terminal(ch) {
            let mut j = i + 1;
            while j < total && (text[j] == ' ' || text[j] == '\t')
                invariant
                    t == text@,
                    total == t.len(),
                    i < j <= total,
                    forall|k: int| i + 1 <= k < j ==> (t[k] == ' ' || t[k] == '\t'),
                decreases total - j,
            {
                j = j + 1;
            }
            proof {
                lemma_skip_blanks_run(t, i + 1, j as int);
                assert(skip_blanks(t, i + 1) == j);
            }
            if j < total && text[j] == '\n' && (j + 1 >= total || text[j + 1] != '\n') {
                j = j + 1;
            }
            proof {
                lemma_stop_skip(t, current_start as int, i as int);
                assert(stop_at(t, i as int));
                assert(!para_at(t, i as int));
                assert(next_stop(t, current_start as int) == i);
                assert(piece_end(t, i as int) == j);
            }
            let tr = trimmed_slice(text, current_start, j);
            let ghost old_out = sents_view(sentences@);
            let ghost brk = after_para_break;
            if tr.len() > 0 {
                let s = Sentence { text: tr, start: current_start, after_paragraph_break: after_para_break };
                proof {
                    lemma_sents_view_push(sentences@, s);
                }
                sentences.push(s);
                after_para_break = false;
                proof {
                    assert(sents_view(sentences@) + sentences_from(t, j as int, false) =~= old_out
                        + sentences_from(t, current_start as int, brk));
                }
            }
            current_start = j;
            i = j;
            continue;
        }
        proof {
            assert(!stop_at(t, i as int));
        }
        i = i + 1;
    }
    proof {
        lemma_stop_skip(t, current_start as int, total as int);
    }
    let ghost old_out = sents_view(sentences@);
    let tr = trimmed_slice(text, current_start, total);
    if tr.len() > 0 {
        let s = Sentence { text: tr, start: current_start, after_paragraph_break: after_para_break };
        proof {
            lemma_sents_view_push(sentences@, s);
        }
        sentences.push(s);
    }
    proof {
        if current_start < total {
            assert(sents_view(sentences@) =~= old_out + sentences_from(t, current_start as int, after_para_break));
        } else {
            assert(sents_view(sentences@) =~= old_out + sentences_from(t, current_start as int, after_para_break));
        }
    }
    sentences
}

/// Splits a text into sentences (`sentences_of`).
pub fn split_sentences(text: &str) -> (r: Vec<Sentence>)
    ensures
        sents_view(r@) == sentences_of(text@),
{
    let chars = chars_of(text);
    split_sentence_chars(&chars)
}

/// The topic-shift phrases that open a new semantic segment.
pub open spec fn topic_words() -> Seq<Seq<char>> {
    seq![
        "然而"@, "但是"@, "不过"@, "此外"@, "另外"@, "同时"@, "总之"@, "综上"@, "因此"@, "所以"@,
        "相反"@, "实际上"@, "事实上"@, "换句话说"@, "具体来说"@, "需要注意的是"@, "值得注意的是"@,
        "由此可见"@, "与此相反"@, "综上所述"@, "总的来说"@, "换言之"@, "一方面"@, "另一方面"@,
        "however"@, "therefore"@, "moreover"@, "furthermore"@, "meanwhile"@,
        "in contrast"@, "in summary"@, "in conclusion"@, "on the other hand"@,
        "specifically"@, "nevertheless"@, "nonetheless"@, "consequently"@,
        "additionally"@, "alternatively"@,
    ]
}

/// Whether `a` begins with `w`.
pub open spec fn starts_with(a: Seq<char>, w: Seq<char>) -> bool {
    w.len() <= a.len() && a.take(w.len() as int) == w
}

/// A sentence opens with a topic-shift phrase (after lower-casing and leading whitespace).
pub open spec fn topic_shift(text: Seq<char>) -> bool {
    exists|k: int| 0 <= k < topic_words().len() && starts_with(trim_start(lowercase(text)), #[trigger] topic_words()[k])
}

fn push_word(v: &mut Vec<Vec<char>>, w: &str)
    ensures
        final(v)@.len() == old(v)@.len() + 1,
        forall|k: int| 0 <= k < old(v)@.len() ==> final(v)@[k] == old(v)@[k],
        final(v)@[old(v)@.len() as int]@ == w@,
{
    v.push(chars_of(w));
}

/// The topic-shift phrases as character vectors.
pub fn topic_word_list() -> (r: Vec<Vec<char>>)
    ensures
        r@.len() == topic_words().len(),
        forall|k: int| 0 <= k < r@.len() ==> (#[trigger] r@[k])@ == topic_words()[k],
{
    let mut v: Vec<Vec<char>> = Vec::new();
    push_word(&mut v, "然而");
    push_word(&mut v, "但是");
    push_word(&mut v, "不过");
    push_word(&mut v, "此外");
    push_word(&mut v, "另外");
    push_word(&mut v, "同时");
    push_word(&mut v, "总之");
    push_word(&mut v, "综上");
    push_word(&mut v, "因此");
    push_word(&mut v, "所以");
    push_word(&mut v, "相反");
    push_word(&mut v, "实际上");
    push_word(&mut v, "事实上");
    push_word(&mut v, "换句话说");
    push_word(&mut v, "具体来说");
    push_word(&mut v, "需要注意的是");
    push_word(&mut v, "值得注意的是");
    push_word(&mut v, "由此可见");
    push_word(&mut v, "与此相反");
    push_word(&mut v, "综上所述");
    push_word(&mut v, "总的来说");
    push_word(&mut v, "换言之");
    push_word(&mut v, "一方面");
    push_word(&mut v, "另一方面");
    push_word(&mut v, "however");
    push_word(&mut v, "therefore");
    push_word(&mut v, "moreover");
    push_word(&mut v, "furthermore");
    push_word(&mut v, "meanwhile");
    push_word(&mut v, "in contrast");
    push_word(&mut v, "in summary");
    push_word(&mut v, "in conclusion");
    push_word(&mut v, "on the other hand");
    push_word(&mut v, "specifically");
    push_word(&mut v, "nevertheless");
    push_word(&mut v, "nonetheless");
    push_word(&mut v, "consequently");
    push_word(&mut v, "additionally");
    push_word(&mut v, "alternatively");
    v
}

/// Whether a sentence opens with a topic-shift phrase.
pub fn is_topic_shift(text: &[char]) -> (r: bool)
    ensures
        r == topic_shift(text@),
{
    let lower = to_lowercase_chars(text);
    let start = first_non_ws(&lower, 0, lower.len());
    let words = topic_word_list();
    let ghost ts = trim_start(lower@);
    proof {
        lemma_trim_start_skip(lower@);
        assert(lower@.subrange(0, lower@.len() as int) =~= lower@);
        assert(ts == lower@.skip(start as int));
    }
    let mut k: usize = 0;
    while k < words.len()
        invariant
            k <= words@.len(),
            words@.len() == topic_words().len(),
            forall|m: int| 0 <= m < words@.len() ==> (#[trigger] words@[m])@ == topic_words()[m],
            ts == lower@.skip(start as int),
            start <= lower@.len(),
            ts == trim_start(lowercase(text@)),
            forall|m: int| 0 <= m < k ==> !starts_with(ts, #[trigger] topic_words()[m]),
        decreases words.len() - k,
    {
        let w = &words[k];
        if matches_at(&lower, w, start) {
            proof {
                assert(ts.take(w@.len() as int) =~= lower@.subrange(start as int, start + w@.len()));
                assert(starts_with(ts, topic_words()[k as int]));
            }
            return true;
        }
        proof {
            if starts_with(ts, topic_words()[k as int]) {
                assert(ts.take(w@.len() as int) =~= lower@.subrange(start as int, start + w@.len()));
            }
        }
        k = k + 1;
    }
    false
}

} // verus!
