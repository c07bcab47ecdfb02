//! The prompt that asks a model where a window of sentences should be cut.
use vstd::prelude::*;
use crate::numfmt::{decimal, usize_to_decimal};
use crate::text::{append_chars, chars_of, matches_at, occurs_at, string_of, trim_end, trimmed_end};
use crate::chunking::points::{find_chars, find_from};
use crate::chunking::sentences::{Sentence, SentenceSpec, sents_view};

verus! {

/// `t` with every occurrence of `pat` from position `i` on replaced by `rep`,
/// scanning left to right without overlaps (`str::replace`).
pub open spec fn replace_from(t: Seq<char>, pat: Seq<char>, rep: Seq<char>, i: int) -> Seq<char>
    decreases t.len() - i,
{
    if i < 0 || i >= t.len() {
        Seq::empty()
    } else if pat.len() > 0 && occurs_at(t, pat, i) {
        rep + replace_from(t, pat, rep, i + pat.len())
    } else {
        seq![t[i]] + replace_from(t, pat, rep, i + 1)
    }
}

/// `t` with every occurrence of `pat` replaced by `rep`.
pub open spec fn replace_all(t: Seq<char>, pat: Seq<char>, rep: Seq<char>) -> Seq<char> {
    replace_from(t, pat, rep, 0)
}

/// Replaces every occurrence of a non-empty `pat` in `t` by `rep` (`replace_all`).
pub fn replace_chars(t: &[char], pat: &[char], rep: &[char]) -> (r: Vec<char>)
    requires
        pat@.len() > 0,
    ensures
        r@ == replace_all(t@, pat@, rep@),
{
    let mut out: Vec<char> = Vec::new();
    let mut i: usize = 0;
    proof {
        assert(out@ + replace_from(t@, pat@, rep@, 0) =~= replace_all(t@, pat@, rep@));
    }
    while i < t.len()
        invariant
            pat@.len() > 0,
            i <= t@.len(),
            out@ + replace_from(t@, pat@, rep@, i as int) == replace_all(t@, pat@, rep@),
        decreases t.len() - i,
    {
        let ghost before = out@;
        if matches_at(t, pat, i) {
            append_chars(&mut out, rep);
            proof {
                assert(before + replace_from(t@, pat@, rep@, i as int) =~= out@ + replace_from(
                    t@,
                    pat@,
                    rep@,
                    i + pat@.len(),
                ));
            }
            i = i + pat.len();
        } else {
            out.push(t[i]);
            proof {
                assert(before + replace_from(t@, pat@, rep@, i as int) =~= out@ + replace_from(
                    t@,
                    pat@,
                    rep@,
                    i + 1,
                ));
            }
            i = i + 1;
        }
    }
    assert(out@ + replace_from(t@, pat@, rep@, i as int) =~= out@);
    out
}

/// The placeholder for the size bound.
pub open spec fn size_placeholder() -> Seq<char> {
    seq!['{', 'm', 'a', 'x', '_', 'c', 'h', 'u', 'n', 'k', '_', 's', 'i', 'z', 'e', '}']
}

/// The placeholder for the numbered sentences.
pub open spec fn sentences_placeholder() -> Seq<char> {
    seq!['{', 's', 'e', 'n', 't', 'e', 'n', 'c', 'e', 's', '}']
}

/// The line `[n] text` for the sentence at position `i` of the window (numbered from 1).
pub open spec fn numbered_line(i: int, text: Seq<char>) -> Seq<char> {
    seq!['['] + decimal((i + 1) as nat) + seq![']', ' '] + text + seq!['\n']
}

/// The window's sentences, one numbered line each.
pub open spec fn numbered_lines(ss: Seq<SentenceSpec>) -> Seq<char>
    decreases ss.len(),
{
    if ss.len() == 0 {
        Seq::empty()
    } else {
        numbered_lines(ss.drop_last()) + numbered_line(ss.len() - 1, ss.last().text)
    }
}

/// The prompt for a window: the template with the size bound filled in, then
/// the numbered sentences (without trailing whitespace) put in the sentences'
/// placeholder, or, where the template has none, appended after a newline.
pub open spec fn agentic_prompt(template: Seq<char>, window: Seq<SentenceSpec>, max: nat) -> Seq<char> {
    let p = replace_all(template, size_placeholder(), decimal(max));
    let numbered = numbered_lines(window);
    if find_from(p, sentences_placeholder(), 0) is Some {
        replace_all(p, sentences_placeholder(), trim_end(numbered))
    } else {
        p + seq!['\n'] + numbered
    }
}

/// The numbered lines of the window (`numbered_lines`).
fn number_lines(window: &[Sentence]) -> (r: Vec<char>)
    requires
        window@.len() < usize::MAX,
    ensures
        r@ == numbered_lines(sents_view(window@)),
{
    let ghost wv = sents_view(window@);
    let mut out: Vec<char> = Vec::new();
    let mut i: usize = 0;
    proof {
        assert(wv.take(0) =~= Seq::<SentenceSpec>::empty());
    }
    while i < window.len()
        invariant
            wv == sents_view(window@),
            window@.len() < usize::MAX,
            i <= wv.len(),
            out@ == numbered_lines(wv.take(i as int)),
        decreases window.len() - i,
    {
        let ghost before = out@;
        out.push('[');
        let num = usize_to_decimal(i + 1);
        append_chars(&mut out, &num);
        out.push(']');
        out.push(' ');
        append_chars(&mut out, &window[i].text);
        out.push('\n');
        proof {
            assert(wv[i as int] == window@[i as int]@);
            assert(wv.take(i + 1).drop_last() =~= wv.take(i as int));
            assert(out@ =~= before + numbered_line(i as int, wv[i as int].text));
        }
        i = i + 1;
    }
    assert(wv.take(wv.len() as int) =~= wv);
    out
}

/// The prompt that asks the model where to cut the window (`agentic_prompt`).
pub fn build_agentic_prompt(template: &str, window: &[Sentence], max_chunk_size: usize) -> (r: String)
    requires
        window@.len() < usize::MAX,
    ensures
        r@ == agentic_prompt(template@, sents_view(window@), max_chunk_size as nat),
{
    let numbered = number_lines(window);
    let size_tag: Vec<char> = vec!['{', 'm', 'a', 'x', '_', 'c', 'h', 'u', 'n', 'k', '_', 's', 'i', 'z', 'e', '}'];
    let sent_tag: Vec<char> = vec!['{', 's', 'e', 'n', 't', 'e', 'n', 'c', 'e', 's', '}'];
    assert(size_tag@ =~= size_placeholder());
    assert(sent_tag@ =~= sentences_placeholder());
    let t = chars_of(template);
    let size = usize_to_decimal(max_chunk_size);
    let p = replace_chars(&t, size_tag.as_slice(), &size);
    match find_chars(&p, sent_tag.as_slice(), 0) {
        Some(_) => {
            let body = trimmed_end(&numbered);
            let out = replace_chars(&p, sent_tag.as_slice(), &body);
            string_of(&out)
        },
        None => {
            let mut out = p;
            out.push('\n');
            append_chars(&mut out, &numbered);
            string_of(&out)
        },
    }
}

} // verus!
