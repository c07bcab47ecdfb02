//! Model names: tags, embedding models, and what is installed.
use vstd::prelude::*;
use crate::chunking::points::{find_chars, find_from};
use crate::chunking::sentences::starts_with;
use crate::text::{append_chars, ascii_lowercase, chars_eq, is_ascii_text, chars_of, copy_string, lowercase, matches_at, occurs_at, owned, str_eq, string_of, to_lowercase_chars};
use crate::chunking::recursive::strings_view;
use crate::ollama::DEFAULT_EMBEDDING_MODEL;

verus! {

/// Whether `p` occurs in `t`.
pub open spec fn contains_text(t: Seq<char>, p: Seq<char>) -> bool {
    find_from(t, p, 0) is Some
}

/// A model is taken for an embedding model when its lower-cased name
/// contains `embed` or `minilm`, or starts with `bge` or `e5`.
pub open spec fn embedding_name(name: Seq<char>) -> bool {
    embedding_rule(lowercase(name))
}

/// The rule on a lower-cased name: it contains `embed` or `minilm`, or
/// starts with `bge` or `e5`.
pub open spec fn embedding_rule(n: Seq<char>) -> bool {
    contains_text(n, "embed"@) || starts_with(n, "bge"@) || contains_text(n, "minilm"@) || starts_with(n, "e5"@)
}

/// Whether `t` starts with `w`.
fn starts_with_chars(t: &[char], w: &[char]) -> (r: bool)
    ensures
        r == starts_with(t@, w@),
{
    let r = matches_at(t, w, 0);
    proof {
        if w@.len() <= t@.len() {
            assert(t@.subrange(0, w@.len() as int) =~= t@.take(w@.len() as int));
        }
    }
    r
}

/// Whether `p` occurs in `t` (`contains_text`).
fn contains_chars(t: &[char], p: &[char]) -> (r: bool)
    ensures
        r == contains_text(t@, p@),
{
    find_chars(t, p, 0).is_some()
}

/// Whether a model name is that of an embedding model (`embedding_name`);
/// such models cannot generate text.
pub fn is_embedding_model_name(name: &str) -> (r: bool)
    ensures
        r == embedding_name(name@),
        is_ascii_text(name@) ==> r == embedding_rule(ascii_lowercase(name@)),
{
    let c = chars_of(name);
    let n = to_lowercase_chars(&c);
    let embed = chars_of("embed");
    let bge = chars_of("bge");
    let minilm = chars_of("minilm");
    let e5 = chars_of("e5");
    contains_chars(&n, &embed) || starts_with_chars(&n, &bge) || contains_chars(&n, &minilm) || starts_with_chars(&n, &e5)
}

/// A model reference with its tag: names without `:` get `:latest`.
pub open spec fn model_ref(model: Seq<char>) -> Seq<char> {
    if model.contains(':') {
        model
    } else {
        model + ":latest"@
    }
}

/// Normalizing a reference twice gives what normalizing once gives.
pub proof fn lemma_model_ref_idempotent(model: Seq<char>)
    ensures
        model_ref(model_ref(model)) == model_ref(model),
{
    reveal_strlit(":latest");
    if !model.contains(':') {
        let r = model + ":latest"@;
        assert(r[model.len() as int] == ':');
        assert(r.contains(':'));
    }
}

/// The model reference with its tag (`model_ref`).
pub fn normalize_model_ref(model: &str) -> (r: String)
    ensures
        r@ == model_ref(model@),
{
    let mut c = chars_of(model);
    let mut i: usize = 0;
    while i < c.len()
        invariant
            c@ == model@,
            i <= c@.len(),
            forall|j: int| 0 <= j < i ==> c@[j] != ':',
        decreases c.len() - i,
    {
        if c[i] == ':' {
            assert(c@[i as int] == ':');
            return owned(model);
        }
        i = i + 1;
    }
    let tail = chars_of(":latest");
    append_chars(&mut c, &tail);
    string_of(&c)
}

/// A pull status without its layer digest: `pulling …` becomes `pulling`.
pub open spec fn pull_status(status: Seq<char>) -> Seq<char> {
    if starts_with(status, "pulling "@) {
        "pulling"@
    } else {
        status
    }
}

/// The pull status shown to the user (`pull_status`).
pub fn normalize_pull_status(status: &str) -> (r: String)
    ensures
        r@ == pull_status(status@),
{
    let c = chars_of(status);
    let p = chars_of("pulling ");
    if starts_with_chars(&c, &p) {
        owned("pulling")
    } else {
        owned(status)
    }
}

/// The names that are not embedding models, in order.
pub open spec fn chat_names(v: Seq<Seq<char>>) -> Seq<Seq<char>>
    decreases v.len(),
{
    if v.len() == 0 {
        Seq::empty()
    } else if embedding_name(v.last()) {
        chat_names(v.drop_last())
    } else {
        chat_names(v.drop_last()).push(v.last())
    }
}

/// Law: the chat models kept are exactly the installed models that are not
/// embedding models: none of them is an embedding model, and every other
/// installed model is kept.
pub proof fn lemma_chat_names(v: Seq<Seq<char>>)
    ensures
        forall|i: int| 0 <= i < chat_names(v).len() ==> !embedding_name(#[trigger] chat_names(v)[i]) && v.contains(chat_names(v)[i]),
        forall|i: int| 0 <= i < v.len() && !embedding_name(#[trigger] v[i]) ==> chat_names(v).contains(v[i]),
    decreases v.len(),
{
    if v.len() > 0 {
        let init = v.drop_last();
        lemma_chat_names(init);
        let c0 = chat_names(init);
        let c = chat_names(v);
        assert forall|i: int| 0 <= i < c.len() implies !embedding_name(#[trigger] c[i]) && v.contains(c[i]) by {
            if i < c0.len() {
                assert(c[i] == c0[i]);
                let w = choose|w: int| 0 <= w < init.len() && init[w] == c0[i];
                assert(v[w] == init[w]);
            } else {
                assert(c[i] == v.last());
                assert(v[v.len() - 1] == v.last());
            }
        }
        assert forall|i: int| 0 <= i < v.len() && !embedding_name(#[trigger] v[i]) implies c.contains(v[i]) by {
            if i < v.len() - 1 {
                assert(init[i] == v[i]);
                let w = choose|w: int| 0 <= w < c0.len() && c0[w] == init[i];
                if embedding_name(v.last()) {
                    assert(c[w] == c0[w]);
                } else {
                    assert(c[w] == c0[w]);
                }
            } else {
                assert(c[c.len() - 1] == v.last());
            }
        }
    }
}

/// The chat models among installed models (`chat_names`).
pub fn chat_models_only(models: &Vec<String>) -> (r: Vec<String>)
    ensures
        strings_view(r@) == chat_names(strings_view(models@)),
{
    let ghost mv = strings_view(models@);
    let mut out: Vec<String> = Vec::new();
    let mut k: usize = 0;
    proof {
        assert(mv.take(0) =~= Seq::<Seq<char>>::empty());
        assert(strings_view(out@) =~= Seq::<Seq<char>>::empty());
    }
    while k < models.len()
        invariant
            mv == strings_view(models@),
            k <= mv.len(),
            strings_view(out@) == chat_names(mv.take(k as int)),
        decreases models.len() - k,
    {
        proof {
            assert(mv.take(k + 1).drop_last() =~= mv.take(k as int));
            assert(mv.take(k + 1).last() == models@[k as int]@);
        }
        if !is_embedding_model_name(models[k].as_str()) {
            let x = copy_string(&models[k]);
            let ghost before = out@;
            out.push(x);
            assert(strings_view(out@) =~= strings_view(before).push(x@));
        }
        k = k + 1;
    }
    assert(mv.take(mv.len() as int) =~= mv);
    out
}

/// Whether `name` is among the names.
pub fn has_name(models: &Vec<String>, name: &str) -> (r: bool)
    ensures
        r == strings_view(models@).contains(name@),
{
    let mut k: usize = 0;
    while k < models.len()
        invariant
            k <= models@.len(),
            forall|j: int| 0 <= j < k ==> models@[j]@ != name@,
        decreases models.len() - k,
    {
        if str_eq(models[k].as_str(), name) {
            assert(strings_view(models@)[k as int] == name@);
            return true;
        }
        k = k + 1;
    }
    proof {
        if strings_view(models@).contains(name@) {
            let w = choose|w: int| 0 <= w < strings_view(models@).len() && strings_view(models@)[w] == name@;
            assert(models@[w]@ == name@);
        }
    }
    false
}

/// A listed model is `model` itself or one of its tags (`model:tag`).
pub open spec fn listed_as(listed: Seq<char>, model: Seq<char>) -> bool {
    listed == model || starts_with(listed, model.push(':'))
}

/// Whether the service lists `model`: some listed name is it or one of its
/// tags (`listed_as`).
pub fn model_listed(models: &Vec<String>, model: &str) -> (r: bool)
    ensures
        r == exists|i: int| 0 <= i < models@.len() && #[trigger] listed_as(models@[i]@, model@),
{
    let m = chars_of(model);
    let mut tagged = chars_of(model);
    tagged.push(':');
    assert(tagged@ =~= model@.push(':'));
    let mut k: usize = 0;
    while k < models.len()
        invariant
            k <= models@.len(),
            m@ == model@,
            tagged@ == model@.push(':'),
            forall|j: int| 0 <= j < k ==> !#[trigger] listed_as(models@[j]@, model@),
        decreases models.len() - k,
    {
        let c = chars_of(models[k].as_str());
        if chars_eq(&c, &m) || starts_with_chars(&c, &tagged) {
            assert(listed_as(models@[k as int]@, model@));
            return true;
        }
        k = k + 1;
    }
    false
}

/// What is installed on disk.
#[derive(Debug, Clone)]
pub struct ModelsOnDisk {
    /// The chat model in effect.
    pub chat_model: String,
    pub chat_model_installed: bool,
    pub embedding_model_installed: bool,
    pub all_installed: bool,
    /// The installed chat models (embedding models left out).
    pub local_chat_models: Vec<String>,
    /// The directories that were looked at.
    pub scanned_dirs: Vec<String>,
}

/// What is installed, from the models found on disk (`name:tag`): the chat
/// model and the embedding model count as installed when their references
/// (`model_ref`) are among them.
pub fn summarize_models(found: Vec<String>, chat_model: String, scanned_dirs: Vec<String>) -> (r: ModelsOnDisk)
    ensures
        r.chat_model@ == chat_model@,
        r.chat_model_installed == strings_view(found@).contains(model_ref(chat_model@)),
        r.embedding_model_installed == strings_view(found@).contains(model_ref(DEFAULT_EMBEDDING_MODEL@)),
        r.all_installed == (r.chat_model_installed && r.embedding_model_installed),
        strings_view(r.local_chat_models@) == chat_names(strings_view(found@)),
        r.scanned_dirs@ == scanned_dirs@,
{
    let chat_ref = normalize_model_ref(chat_model.as_str());
    let emb_ref = normalize_model_ref(DEFAULT_EMBEDDING_MODEL);
    let chat_installed = has_name(&found, chat_ref.as_str());
    let emb_installed = has_name(&found, emb_ref.as_str());
    let local = chat_models_only(&found);
    ModelsOnDisk {
        chat_model,
        chat_model_installed: chat_installed,
        embedding_model_installed: emb_installed,
        all_installed: chat_installed && emb_installed,
        local_chat_models: local,
        scanned_dirs,
    }
}

/// `a` comes before `b` in the order of `str`: character by character,
/// by code point, a proper prefix first.
pub open spec fn text_lt(a: Seq<char>, b: Seq<char>) -> bool
    decreases a.len(),
{
    if a.len() == 0 {
        b.len() > 0
    } else if b.len() == 0 {
        false
    } else if a[0] != b[0] {
        a[0] < b[0]
    } else {
        text_lt(a.drop_first(), b.drop_first())
    }
}

/// The names come in strictly increasing `str` order (so none twice).
pub open spec fn strictly_sorted(v: Seq<Seq<char>>) -> bool {
    forall|i: int, j: int| 0 <= i < j < v.len() ==> text_lt(#[trigger] v[i], #[trigger] v[j])
}

proof fn lemma_text_lt_irreflexive(a: Seq<char>)
    ensures
        !text_lt(a, a),
    decreases a.len(),
{
    if a.len() > 0 {
        lemma_text_lt_irreflexive(a.drop_first());
    }
}

proof fn lemma_text_lt_trans(a: Seq<char>, b: Seq<char>, c: Seq<char>)
    requires
        text_lt(a, b),
        text_lt(b, c),
    ensures
        text_lt(a, c),
    decreases a.len(),
{
    if a.len() > 0 && b.len() > 0 && c.len() > 0 && a[0] == b[0] && b[0] == c[0] {
        lemma_text_lt_trans(a.drop_first(), b.drop_first(), c.drop_first());
    }
}

proof fn lemma_text_lt_total(a: Seq<char>, b: Seq<char>)
    requires
        a != b,
    ensures
        text_lt(a, b) || text_lt(b, a),
    decreases a.len(),
{
    if a.len() > 0 && b.len() > 0 && a[0] == b[0] {
        if a.drop_first() == b.drop_first() {
            assert(a =~= seq![a[0]] + a.drop_first());
            assert(b =~= seq![b[0]] + b.drop_first());
        }
        lemma_text_lt_total(a.drop_first(), b.drop_first());
    } else if a.len() == 0 && b.len() == 0 {
        assert(a =~= b);
    }
}

/// Whether `a` comes before `b` (`text_lt`).
fn text_less(a: &[char], b: &[char]) -> (r: bool)
    ensures
        r == text_lt(a@, b@),
{
    let mut i: usize = 0;
    proof {
        assert(a@.skip(0) =~= a@);
        assert(b@.skip(0) =~= b@);
    }
    while i < a.len() && i < b.len() && a[i] == b[i]
        invariant
            i <= a@.len(),
            i <= b@.len(),
            text_lt(a@.skip(i as int), b@.skip(i as int)) == text_lt(a@, b@),
        decreases a.len() - i,
    {
        proof {
            assert(a@.skip(i as int).drop_first() =~= a@.skip(i + 1));
            assert(b@.skip(i as int).drop_first() =~= b@.skip(i + 1));
        }
        i = i + 1;
    }
    proof {
        if i < a.len() && i < b.len() {
            assert(a@.skip(i as int)[0] == a@[i as int]);
            assert(b@.skip(i as int)[0] == b@[i as int]);
        }
    }
    if i == a.len() {
        i < b.len()
    } else if i == b.len() {
        false
    } else {
        a[i] < b[i]
    }
}

/// The names found on disk, in `str` order and each once: the names come
/// in strictly increasing order and are exactly those of `names`.
pub fn sorted_unique_names(names: Vec<String>) -> (r: Vec<String>)
    ensures
        strictly_sorted(strings_view(r@)),
        forall|x: Seq<char>| strings_view(r@).contains(x) <==> strings_view(names@).contains(x),
{
    let ghost nv = strings_view(names@);
    let mut out: Vec<String> = Vec::new();
    let mut k: usize = 0;
    while k < names.len()
        invariant
            nv == strings_view(names@),
            k <= nv.len(),
            strictly_sorted(strings_view(out@)),
            forall|x: Seq<char>| strings_view(out@).contains(x) <==> nv.take(k as int).contains(x),
        decreases names.len() - k,
    {
        let s = chars_of(names[k].as_str());
        assert(nv[k as int] == s@);
        let ghost ov = strings_view(out@);
        let mut p: usize = 0;
        while p < out.len() && text_less(&chars_of(out[p].as_str()), &s)
            invariant
                ov == strings_view(out@),
                p <= ov.len(),
                forall|i: int| 0 <= i < p ==> text_lt(#[trigger] ov[i], s@),
            decreases out.len() - p,
        {
            assert(ov[p as int] == out@[p as int]@);
            p = p + 1;
        }
        let dup = p < out.len() && chars_eq(&chars_of(out[p].as_str()), &s);
        proof {
            if p < ov.len() {
                assert(ov[p as int] == out@[p as int]@);
            }
            assert(nv.take(k + 1) =~= nv.take(k as int).push(s@));
        }
        if !dup {
            let ghost before = out@;
            out.insert(p, copy_string(&names[k]));
            proof {
                let w = strings_view(out@);
                assert(w =~= ov.insert(p as int, s@));
                if p < ov.len() {
                    lemma_text_lt_total(ov[p as int], s@);
                    assert(text_lt(s@, ov[p as int]));
                }
                assert forall|i: int, j: int| 0 <= i < j < w.len() implies text_lt(#[trigger] w[i], #[trigger] w[j]) by {
                    if j < p {
                        assert(w[i] == ov[i] && w[j] == ov[j]);
                    } else if j == p {
                        assert(w[i] == ov[i]);
                    } else if i < p {
                        assert(w[i] == ov[i] && w[j] == ov[j - 1]);
                        if j - 1 > p {
                            lemma_text_lt_trans(s@, ov[p as int], ov[j - 1]);
                        }
                        lemma_text_lt_trans(ov[i], s@, ov[j - 1]);
                    } else if i == p {
                        assert(w[j] == ov[j - 1]);
                        if j - 1 > p {
                            lemma_text_lt_trans(s@, ov[p as int], ov[j - 1]);
                        }
                    } else {
                        assert(w[i] == ov[i - 1] && w[j] == ov[j - 1]);
                    }
                }
                assert forall|x: Seq<char>| w.contains(x) <==> nv.take(k + 1).contains(x) by {
                    assert(nv.take(k + 1).contains(x) <==> (nv.take(k as int).contains(x) || x == s@)) by {
                        if nv.take(k + 1).contains(x) {
                            let i = choose|i: int| 0 <= i < nv.take(k + 1).len() && #[trigger] nv.take(k + 1)[i] == x;
                            if i < k {
                                assert(nv.take(k as int)[i] == x);
                            }
                        }
                        if nv.take(k as int).contains(x) {
                            let i = choose|i: int| 0 <= i < nv.take(k as int).len() && #[trigger] nv.take(k as int)[i] == x;
                            assert(nv.take(k + 1)[i] == x);
                        }
                        if x == s@ {
                            assert(nv.take(k + 1)[k as int] == x);
                        }
                    }
                    if w.contains(x) {
                        let i = choose|i: int| 0 <= i < w.len() && #[trigger] w[i] == x;
                        if i < p {
                            assert(ov[i] == x);
                        } else if i > p {
                            assert(ov[i - 1] == x);
                        }
                    }
                    if ov.contains(x) {
                        let i = choose|i: int| 0 <= i < ov.len() && #[trigger] ov[i] == x;
                        if i < p {
                            assert(w[i] == x);
                        } else {
                            assert(w[i + 1] == x);
                        }
                    }
                    if x == s@ {
                        assert(w[p as int] == x);
                    }
                }
            }
        } else {
            proof {
                assert(ov.contains(s@));
            }
        }
        k = k + 1;
    }
    proof {
        assert(nv.take(nv.len() as int) =~= nv);
    }
    out
}

} // verus!
