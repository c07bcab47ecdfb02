//! Recursive character splitting: a text too long for a chunk is cut at the
//! coarsest separator it contains, and pieces still too long are cut at finer
//! ones, down to plain fixed-size cuts.
use vstd::prelude::*;
use crate::text::{append_chars, chars_of, is_ws, lemma_trim_empty, occurs_at, slice_to_vec, string_of, trim, trimmed};
use crate::chunking::chunk::{ChunkMetadata, ChunkSpec, MetaSpec, RawChunk, lemma_raw_view_push, raw_view};
use crate::chunking::points::{find_chars, find_from, lemma_find_from};

verus! {

/// The views of a list of texts.
pub open spec fn texts_view(v: Seq<Vec<char>>) -> Seq<Seq<char>> {
    v.map_values(|x: Vec<char>| x@)
}

/// The texts, one after the other.
pub open spec fn concat(v: Seq<Seq<char>>) -> Seq<char>
    decreases v.len(),
{
    if v.len() == 0 {
        Seq::empty()
    } else {
        concat(v.drop_last()) + v.last()
    }
}

/// The pieces of `t[i..]` between the occurrences of a non-empty `sep`, as
/// `str::split` yields them.
pub open spec fn split_from(t: Seq<char>, sep: Seq<char>, i: int) -> Seq<Seq<char>>
    decreases t.len() + 1 - i,
{
    if sep.len() == 0 || i < 0 || i > t.len() {
        Seq::empty()
    } else {
        match find_from(t, sep, i) {
            Some(j) => {
                proof {
                    lemma_find_from(t, sep, i);
                }
                seq![t.subrange(i, j)] + split_from(t, sep, j + sep.len())
            },
            None => seq![t.subrange(i, t.len() as int)],
        }
    }
}

/// Consecutive runs of `cs` characters, the last one possibly shorter
/// (`<[char]>::chunks`); none for an empty text.
pub open spec fn hard_pieces(t: Seq<char>, cs: int) -> Seq<Seq<char>>
    decreases t.len(),
{
    if t.len() == 0 || cs < 1 {
        Seq::empty()
    } else if t.len() <= cs {
        seq![t]
    } else {
        seq![t.take(cs)] + hard_pieces(t.skip(cs), cs)
    }
}

/// The first separator at or after `k` that is not empty and occurs in `t`.
pub open spec fn first_sep_from(t: Seq<char>, seps: Seq<Seq<char>>, k: int) -> Option<int>
    decreases seps.len() - k,
{
    if k < 0 || k >= seps.len() {
        None
    } else if seps[k].len() > 0 && find_from(t, seps[k], 0) is Some {
        Some(k)
    } else {
        first_sep_from(t, seps, k + 1)
    }
}

pub proof fn lemma_first_sep_from(t: Seq<char>, seps: Seq<Seq<char>>, k: int)
    ensures
        first_sep_from(t, seps, k) matches Some(i) ==> (k <= i < seps.len() && seps[i].len() > 0 && find_from(
            t,
            seps[i],
            0,
        ) is Some),
    decreases seps.len() - k,
{
    if !(k < 0 || k >= seps.len()) && !(seps[k].len() > 0 && find_from(t, seps[k], 0) is Some) {
        lemma_first_sep_from(t, seps, k + 1);
    }
}

/// The pieces of `t` for chunks of `cs` characters, using the separators from
/// `seps[from]` on: `t` itself when it fits; otherwise its pieces between the
/// first separator that occurs in it (each but the first keeps the separator
/// in front), each re-split if too long; plain cuts when no separator occurs.
pub open spec fn rsplit(t: Seq<char>, seps: Seq<Seq<char>>, from: int, cs: int) -> Seq<Seq<char>>
    decreases seps.len() - from, 0int,
{
    if t.len() <= cs {
        seq![t]
    } else {
        match first_sep_from(t, seps, from) {
            Some(i) => {
                proof {
                    lemma_first_sep_from(t, seps, from);
                }
                expand_pieces(split_from(t, seps[i], 0), seps, i, cs, 0, Seq::empty())
            },
            None => hard_pieces(t, cs),
        }
    }
}

/// Takes the pieces from `k` on, after `acc`: a piece gets the separator in
/// front unless nothing came before it; a piece longer than `cs` is re-split
/// with the finer separators, or cut plainly when there are none.
pub open spec fn expand_pieces(
    pieces: Seq<Seq<char>>,
    seps: Seq<Seq<char>>,
    i: int,
    cs: int,
    k: int,
    acc: Seq<Seq<char>>,
) -> Seq<Seq<char>>
    decreases seps.len() - (i + 1), pieces.len() - k,
{
    if k < 0 || k >= pieces.len() || i < 0 || i >= seps.len() {
        acc
    } else {
        let pws = if acc.len() == 0 {
            pieces[k]
        } else {
            seps[i] + pieces[k]
        };
        let more = if pws.len() > cs {
            if i + 1 >= seps.len() {
                hard_pieces(pws, cs)
            } else {
                rsplit(pws, seps, i + 1, cs)
            }
        } else {
            seq![pws]
        };
        expand_pieces(pieces, seps, i, cs, k + 1, acc + more)
    }
}

/// Appends `x` to `v`.
fn views_push(v: &mut Vec<Vec<char>>, x: Vec<char>)
    ensures
        texts_view(final(v)@) == texts_view(old(v)@).push(x@),
{
    let ghost before = v@;
    v.push(x);
    assert(texts_view(v@) =~= texts_view(before).push(x@));
}

/// A copy of a text.
fn copy_chars(x: &Vec<char>) -> (r: Vec<char>)
    ensures
        r@ == x@,
{
    let r = slice_to_vec(x.as_slice(), 0, x.len());
    assert(r@ =~= x@);
    r
}

/// Appends copies of the texts of `w` to `v`.
fn views_extend(v: &mut Vec<Vec<char>>, w: &Vec<Vec<char>>)
    ensures
        texts_view(final(v)@) == texts_view(old(v)@) + texts_view(w@),
{
    let ghost v0 = texts_view(v@);
    let mut k: usize = 0;
    while k < w.len()
        invariant
            k <= w@.len(),
            texts_view(v@) == v0 + texts_view(w@).take(k as int),
        decreases w.len() - k,
    {
        let x = copy_chars(&w[k]);
        views_push(v, x);
        proof {
            assert(texts_view(w@).take(k + 1) =~= texts_view(w@).take(k as int).push(w@[k as int]@));
            assert(v0 + texts_view(w@).take(k + 1) =~= (v0 + texts_view(w@).take(k as int)).push(w@[k as int]@));
        }
        k = k + 1;
    }
    assert(texts_view(w@).take(w@.len() as int) =~= texts_view(w@));
}

/// The pieces of `t` between the occurrences of a non-empty `sep` (`split_from`).
pub fn split_on(t: &[char], sep: &[char]) -> (r: Vec<Vec<char>>)
    requires
        sep@.len() > 0,
    ensures
        texts_view(r@) == split_from(t@, sep@, 0),
{
    let mut out: Vec<Vec<char>> = Vec::new();
    let mut i: usize = 0;
    let n = t.len();
    proof {
        assert(texts_view(out@) + split_from(t@, sep@, 0) =~= split_from(t@, sep@, 0));
    }
    loop
        invariant_except_break
            texts_view(out@) + split_from(t@, sep@, i as int) == split_from(t@, sep@, 0),
        invariant
            sep@.len() > 0,
            n == t@.len(),
            i <= t@.len(),
        ensures
            texts_view(out@) == split_from(t@, sep@, 0),
        decreases t@.len() + 1 - i,
    {
        proof {
            lemma_find_from(t@, sep@, i as int);
        }
        match find_chars(t, sep, i) {
            Some(j) => {
                let piece = slice_to_vec(t, i, j);
                let ghost before = texts_view(out@);
                views_push(&mut out, piece);
                proof {
                    assert(before + split_from(t@, sep@, i as int) =~= texts_view(out@) + split_from(
                        t@,
                        sep@,
                        j + sep@.len(),
                    ));
                }
                assert(j + sep@.len() <= n);
                i = j + sep.len();
            },
            None => {
                let piece = slice_to_vec(t, i, t.len());
                let ghost before = texts_view(out@);
                views_push(&mut out, piece);
                proof {
                    assert(before + split_from(t@, sep@, i as int) =~= texts_view(out@));
                }
                break;
            },
        }
    }
    out
}

/// Cuts `t` into runs of `cs` characters (`hard_pieces`).
pub fn hard_split_chars(t: &[char], cs: usize) -> (r: Vec<Vec<char>>)
    requires
        cs >= 1,
    ensures
        texts_view(r@) == hard_pieces(t@, cs as int),
{
    let mut out: Vec<Vec<char>> = Vec::new();
    let mut i: usize = 0;
    proof {
        assert(t@.skip(0) =~= t@);
        assert(texts_view(out@) + hard_pieces(t@.skip(0), cs as int) =~= hard_pieces(t@, cs as int));
    }
    while i < t.len()
        invariant
            cs >= 1,
            i <= t@.len(),
            texts_view(out@) + hard_pieces(t@.skip(i as int), cs as int) == hard_pieces(t@, cs as int),
        decreases t.len() - i,
    {
        let ghost rest = t@.skip(i as int);
        let ghost before = texts_view(out@);
        if t.len() - i <= cs {
            let piece = slice_to_vec(t, i, t.len());
            assert(piece@ =~= rest);
            views_push(&mut out, piece);
            proof {
                assert(before + hard_pieces(rest, cs as int) =~= texts_view(out@));
                assert(t@.skip(t@.len() as int) =~= Seq::<char>::empty());
                assert(texts_view(out@) + hard_pieces(t@.skip(t@.len() as int), cs as int) =~= texts_view(out@));
            }
            i = t.len();
        } else {
            let piece = slice_to_vec(t, i, i + cs);
            assert(piece@ =~= rest.take(cs as int));
            views_push(&mut out, piece);
            proof {
                assert(rest.skip(cs as int) =~= t@.skip(i + cs));
                assert(before + hard_pieces(rest, cs as int) =~= texts_view(out@) + hard_pieces(
                    t@.skip(i + cs),
                    cs as int,
                ));
            }
            i = i + cs;
        }
    }
    proof {
        assert(t@.skip(i as int) =~= Seq::<char>::empty());
        assert(texts_view(out@) + Seq::<Seq<char>>::empty() =~= texts_view(out@));
    }
    out
}

/// The first separator at or after `k` that is not empty and occurs in `t` (`first_sep_from`).
fn find_first_sep(t: &[char], seps: &Vec<Vec<char>>, k: usize) -> (r: Option<usize>)
    ensures
        match r {
            Some(i) => first_sep_from(t@, texts_view(seps@), k as int) == Some(i as int),
            None => first_sep_from(t@, texts_view(seps@), k as int) is None,
        },
{
    let ghost sv = texts_view(seps@);
    let mut j = k;
    while j < seps.len()
        invariant
            sv == texts_view(seps@),
            k <= j,
            first_sep_from(t@, sv, j as int) == first_sep_from(t@, sv, k as int),
        decreases seps.len() - j,
    {
        assert(sv[j as int] == seps@[j as int]@);
        if seps[j].len() > 0 {
            match find_chars(t, seps[j].as_slice(), 0) {
                Some(_) => {
                    return Some(j);
                },
                None => {},
            }
        }
        j = j + 1;
    }
    None
}

/// The pieces of `t` for chunks of `cs` characters, using the separators from
/// `seps[from]` on (`rsplit`).
pub fn recursive_pieces(t: &[char], seps: &Vec<Vec<char>>, from: usize, cs: usize) -> (r: Vec<Vec<char>>)
    requires
        cs >= 1,
    ensures
        texts_view(r@) == rsplit(t@, texts_view(seps@), from as int, cs as int),
    decreases seps@.len() - from, 0int,
{
    let ghost sv = texts_view(seps@);
    if t.len() <= cs {
        let mut out: Vec<Vec<char>> = Vec::new();
        let x = slice_to_vec(t, 0, t.len());
        assert(x@ =~= t@);
        views_push(&mut out, x);
        assert(texts_view(out@) =~= seq![t@]);
        return out;
    }
    match find_first_sep(t, seps, from) {
        None => hard_split_chars(t, cs),
        Some(i) => {
            proof {
                lemma_first_sep_from(t@, sv, from as int);
            }
            assert(sv[i as int] == seps@[i as int]@);
            let sep = &seps[i];
            let pieces = split_on(t, sep.as_slice());
            let ghost pv = texts_view(pieces@);
            let mut parts: Vec<Vec<char>> = Vec::new();
            let mut k: usize = 0;
            proof {
                assert(texts_view(parts@) =~= Seq::<Seq<char>>::empty());
            }
            while k < pieces.len()
                invariant
                    sv == texts_view(seps@),
                    pv == texts_view(pieces@),
                    from <= i < sv.len(),
                    cs >= 1,
                    sep@ == sv[i as int],
                    k <= pv.len(),
                    expand_pieces(pv, sv, i as int, cs as int, k as int, texts_view(parts@)) == expand_pieces(
                        pv,
                        sv,
                        i as int,
                        cs as int,
                        0,
                        Seq::empty(),
                    ),
                decreases pieces.len() - k,
            {
                assert(pv[k as int] == pieces@[k as int]@);
                let mut with_sep: Vec<char> = Vec::new();
                if parts.len() > 0 {
                    append_chars(&mut with_sep, sep.as_slice());
                }
                append_chars(&mut with_sep, pieces[k].as_slice());
                proof {
                    assert(texts_view(parts@).len() == parts@.len());
                    if parts@.len() == 0 {
                        assert(with_sep@ =~= pv[k as int]);
                    } else {
                        assert(with_sep@ =~= sv[i as int] + pv[k as int]);
                    }
                }
                let ghost before = texts_view(parts@);
                if with_sep.len() > cs {
                    assert(texts_view(seps@).len() == seps@.len());
                    if i >= seps.len() - 1 {
                        let more = hard_split_chars(&with_sep, cs);
                        views_extend(&mut parts, &more);
                    } else {
                        let more = recursive_pieces(&with_sep, seps, i + 1, cs);
                        views_extend(&mut parts, &more);
                    }
                } else {
                    views_push(&mut parts, with_sep);
                    assert(texts_view(parts@) =~= before + seq![with_sep@]);
                }
                k = k + 1;
            }
            parts
        },
    }
}

/// Each text is at most `cs` characters long.
pub open spec fn all_fit(v: Seq<Seq<char>>, cs: int) -> bool {
    forall|i: int| 0 <= i < v.len() ==> (#[trigger] v[i]).len() <= cs
}

/// The pieces from `k` on, each with `sep` in front, one after the other.
pub open spec fn sep_tail(ps: Seq<Seq<char>>, sep: Seq<char>, k: int) -> Seq<char>
    decreases ps.len() - k,
{
    if k < 0 || k >= ps.len() {
        Seq::empty()
    } else {
        sep + ps[k] + sep_tail(ps, sep, k + 1)
    }
}

pub proof fn lemma_concat_append(a: Seq<Seq<char>>, b: Seq<Seq<char>>)
    ensures
        concat(a + b) == concat(a) + concat(b),
    decreases b.len(),
{
    if b.len() == 0 {
        assert(a + b =~= a);
    } else {
        lemma_concat_append(a, b.drop_last());
        assert((a + b).drop_last() =~= a + b.drop_last());
        assert((a + b).last() == b.last());
    }
}

pub proof fn lemma_all_fit_append(a: Seq<Seq<char>>, b: Seq<Seq<char>>, cs: int)
    requires
        all_fit(a, cs),
        all_fit(b, cs),
    ensures
        all_fit(a + b, cs),
{
    assert forall|i: int| 0 <= i < (a + b).len() implies (#[trigger] (a + b)[i]).len() <= cs by {
        if i < a.len() {
            assert((a + b)[i] == a[i]);
        } else {
            assert((a + b)[i] == b[i - a.len()]);
        }
    }
}

/// Plain cuts give back the text, in runs of at most `cs` characters.
pub proof fn lemma_hard_pieces(t: Seq<char>, cs: int)
    requires
        cs >= 1,
    ensures
        concat(hard_pieces(t, cs)) == t,
        all_fit(hard_pieces(t, cs), cs),
        t.len() > 0 ==> hard_pieces(t, cs).len() >= 1,
    decreases t.len(),
{
    if t.len() == 0 {
    } else if t.len() <= cs {
        assert(concat(seq![t]) == concat(seq![t].drop_last()) + t);
        assert(seq![t].drop_last() =~= Seq::<Seq<char>>::empty());
    } else {
        lemma_hard_pieces(t.skip(cs), cs);
        lemma_concat_append(seq![t.take(cs)], hard_pieces(t.skip(cs), cs));
        assert(concat(seq![t.take(cs)]) == concat(seq![t.take(cs)].drop_last()) + t.take(cs));
        assert(seq![t.take(cs)].drop_last() =~= Seq::<Seq<char>>::empty());
        assert(t.take(cs) + t.skip(cs) =~= t);
        lemma_all_fit_append(seq![t.take(cs)], hard_pieces(t.skip(cs), cs), cs);
    }
}

/// Piece `j` of a hard split starts at `j * cs` and holds `t[j*cs..]` up to
/// `cs` characters: every piece but the last holds exactly `cs`.
pub proof fn lemma_hard_pieces_at(t: Seq<char>, cs: int)
    requires
        cs >= 1,
    ensures
        forall|j: int|
            0 <= j < hard_pieces(t, cs).len() ==> {
                &&& 0 <= j * cs
                &&& j * cs + (#[trigger] hard_pieces(t, cs)[j]).len() <= t.len()
                &&& hard_pieces(t, cs)[j] == t.subrange(j * cs, j * cs + hard_pieces(t, cs)[j].len())
                &&& (j + 1 < hard_pieces(t, cs).len() ==> hard_pieces(t, cs)[j].len() == cs)
            },
    decreases t.len(),
{
    if t.len() == 0 {
    } else if t.len() <= cs {
        let ps = hard_pieces(t, cs);
        assert forall|j: int| 0 <= j < ps.len() implies {
            &&& 0 <= j * cs
            &&& j * cs + (#[trigger] ps[j]).len() <= t.len()
            &&& ps[j] == t.subrange(j * cs, j * cs + ps[j].len())
            &&& (j + 1 < ps.len() ==> ps[j].len() == cs)
        } by {
            assert(j == 0);
            assert(j * cs == 0) by (nonlinear_arith)
                requires
                    j == 0,
            ;
            assert(t.subrange(0, t.len() as int) =~= t);
        }
    } else {
        let rest = hard_pieces(t.skip(cs), cs);
        lemma_hard_pieces_at(t.skip(cs), cs);
        let ps = hard_pieces(t, cs);
        assert(ps == seq![t.take(cs)] + rest);
        assert forall|j: int| 0 <= j < ps.len() implies {
            &&& 0 <= j * cs
            &&& j * cs + (#[trigger] ps[j]).len() <= t.len()
            &&& ps[j] == t.subrange(j * cs, j * cs + ps[j].len())
            &&& (j + 1 < ps.len() ==> ps[j].len() == cs)
        } by {
            if j == 0 {
                assert(j * cs == 0) by (nonlinear_arith)
                    requires
                        j == 0,
                ;
                assert(t.take(cs) =~= t.subrange(0, cs));
            } else {
                assert(ps[j] == rest[j - 1]);
                assert(j * cs == (j - 1) * cs + cs) by (nonlinear_arith);
                assert(0 <= (j - 1) * cs) by (nonlinear_arith)
                    requires
                        j >= 1,
                        cs >= 1,
                ;
                assert(rest[j - 1] == t.skip(cs).subrange((j - 1) * cs, (j - 1) * cs + rest[j - 1].len()));
                assert(t.skip(cs).subrange((j - 1) * cs, (j - 1) * cs + rest[j - 1].len()) =~= t.subrange(
                    j * cs,
                    j * cs + ps[j].len(),
                ));
            }
        }
    }
}

/// The pieces between the separators, put back together with it, give back
/// the text; there is always at least one piece.
pub proof fn lemma_split_from(t: Seq<char>, sep: Seq<char>, i: int)
    requires
        sep.len() > 0,
        0 <= i <= t.len(),
    ensures
        split_from(t, sep, i).len() >= 1,
        split_from(t, sep, i)[0] + sep_tail(split_from(t, sep, i), sep, 1) == t.subrange(i, t.len() as int),
    decreases t.len() + 1 - i,
{
    lemma_find_from(t, sep, i);
    let ps = split_from(t, sep, i);
    match find_from(t, sep, i) {
        Some(j) => {
            let rest = split_from(t, sep, j + sep.len());
            lemma_split_from(t, sep, j + sep.len());
            assert(ps == seq![t.subrange(i, j)] + rest);
            lemma_sep_tail_shift(t.subrange(i, j), rest, sep, 0);
            assert(t.subrange(j, j + sep.len()) == sep);
            let r0 = rest[0];
            let rt = sep_tail(rest, sep, 1);
            assert(r0 + rt == t.subrange(j + sep.len(), t.len() as int));
            assert(sep + r0 + rt =~= sep + (r0 + rt));
            assert(t.subrange(i, t.len() as int) =~= t.subrange(i, j) + (t.subrange(j, j + sep.len()) + t.subrange(
                j + sep.len(),
                t.len() as int,
            )));
            assert(t.subrange(i, j) + (sep + r0 + rt) =~= t.subrange(i, t.len() as int));
        },
        None => {
            assert(ps == seq![t.subrange(i, t.len() as int)]);
            assert(sep_tail(ps, sep, 1) =~= Seq::<char>::empty());
            assert(ps[0] + sep_tail(ps, sep, 1) =~= t.subrange(i, t.len() as int));
        },
    }
}

proof fn lemma_sep_tail_shift(a: Seq<char>, rest: Seq<Seq<char>>, sep: Seq<char>, k: int)
    requires
        0 <= k,
    ensures
        sep_tail(seq![a] + rest, sep, k + 1) == sep_tail(rest, sep, k),
    decreases rest.len() - k,
{
    let ps = seq![a] + rest;
    if k < rest.len() {
        lemma_sep_tail_shift(a, rest, sep, k + 1);
        assert(ps[k + 1] == rest[k]);
    }
}

/// The result of re-splitting with the separators from `from` on gives back
/// the text, has at least one piece, and every piece fits in `cs`.
pub proof fn lemma_rsplit(t: Seq<char>, seps: Seq<Seq<char>>, from: int, cs: int)
    requires
        cs >= 1,
    ensures
        concat(rsplit(t, seps, from, cs)) == t,
        all_fit(rsplit(t, seps, from, cs), cs),
        rsplit(t, seps, from, cs).len() >= 1,
    decreases seps.len() - from, 0int,
{
    if t.len() <= cs {
        assert(concat(seq![t]) == concat(seq![t].drop_last()) + t);
        assert(seq![t].drop_last() =~= Seq::<Seq<char>>::empty());
    } else {
        lemma_first_sep_from(t, seps, from);
        match first_sep_from(t, seps, from) {
            Some(i) => {
                let sep = seps[i];
                lemma_split_from(t, sep, 0);
                let ps = split_from(t, sep, 0);
                lemma_expand_pieces(ps, seps, i, cs, 0, Seq::empty());
                assert(concat(Seq::<Seq<char>>::empty()) =~= Seq::<char>::empty());
                assert(t.subrange(0, t.len() as int) =~= t);
                assert(Seq::<char>::empty() + (ps[0] + sep_tail(ps, sep, 1)) =~= t);
            },
            None => {
                lemma_hard_pieces(t, cs);
            },
        }
    }
}

/// Expanding the pieces from `k` on after `acc` appends their text (with the
/// separator in front of each but, when nothing came before, the first), in
/// pieces that fit in `cs`; something is appended when a piece is left.
pub proof fn lemma_expand_pieces(
    ps: Seq<Seq<char>>,
    seps: Seq<Seq<char>>,
    i: int,
    cs: int,
    k: int,
    acc: Seq<Seq<char>>,
)
    requires
        cs >= 1,
        0 <= i < seps.len(),
        0 <= k <= ps.len(),
        all_fit(acc, cs),
    ensures
        concat(expand_pieces(ps, seps, i, cs, k, acc)) == concat(acc) + (if k < ps.len() {
            (if acc.len() == 0 {
                ps[k]
            } else {
                seps[i] + ps[k]
            }) + sep_tail(ps, seps[i], k + 1)
        } else {
            Seq::<char>::empty()
        }),
        all_fit(expand_pieces(ps, seps, i, cs, k, acc), cs),
        k < ps.len() ==> expand_pieces(ps, seps, i, cs, k, acc).len() >= 1,
        expand_pieces(ps, seps, i, cs, k, acc).len() >= acc.len(),
    decreases seps.len() - (i + 1), ps.len() - k,
{
    if k < ps.len() {
        let pws = if acc.len() == 0 {
            ps[k]
        } else {
            seps[i] + ps[k]
        };
        let more = if pws.len() > cs {
            if i + 1 >= seps.len() {
                hard_pieces(pws, cs)
            } else {
                rsplit(pws, seps, i + 1, cs)
            }
        } else {
            seq![pws]
        };
        if pws.len() > cs {
            if i + 1 >= seps.len() {
                lemma_hard_pieces(pws, cs);
            } else {
                lemma_rsplit(pws, seps, i + 1, cs);
            }
        } else {
            assert(concat(seq![pws]) == concat(seq![pws].drop_last()) + pws);
            assert(seq![pws].drop_last() =~= Seq::<Seq<char>>::empty());
        }
        assert(concat(more) == pws);
        lemma_all_fit_append(acc, more, cs);
        lemma_concat_append(acc, more);
        lemma_expand_pieces(ps, seps, i, cs, k + 1, acc + more);
        assert((acc + more).len() > 0);
        if k + 1 < ps.len() {
            assert(sep_tail(ps, seps[i], k + 1) == seps[i] + ps[k + 1] + sep_tail(ps, seps[i], k + 2));
            assert(concat(acc) + (pws + sep_tail(ps, seps[i], k + 1)) =~= concat(acc) + pws + (seps[i] + ps[k + 1]
                + sep_tail(ps, seps[i], k + 2)));
        } else {
            assert(sep_tail(ps, seps[i], k + 1) =~= Seq::<char>::empty());
            assert(concat(acc) + (pws + sep_tail(ps, seps[i], k + 1)) =~= concat(acc) + pws + Seq::<char>::empty());
        }
    }
}

/// The separators' texts.
pub open spec fn strings_view(v: Seq<String>) -> Seq<Seq<char>> {
    v.map_values(|x: String| x@)
}

/// The texts as strings.
fn strings_of(v: &Vec<Vec<char>>) -> (r: Vec<String>)
    ensures
        strings_view(r@) == texts_view(v@),
{
    let mut out: Vec<String> = Vec::new();
    let mut k: usize = 0;
    while k < v.len()
        invariant
            k <= v@.len(),
            strings_view(out@) == texts_view(v@).take(k as int),
        decreases v.len() - k,
    {
        let x = string_of(v[k].as_slice());
        let ghost before = out@;
        out.push(x);
        proof {
            assert(strings_view(out@) =~= strings_view(before).push(x@));
            assert(texts_view(v@).take(k + 1) =~= texts_view(v@).take(k as int).push(v@[k as int]@));
        }
        k = k + 1;
    }
    assert(texts_view(v@).take(v@.len() as int) =~= texts_view(v@));
    out
}

/// The strings as character lists.
fn texts_of(v: &[String]) -> (r: Vec<Vec<char>>)
    ensures
        texts_view(r@) == strings_view(v@),
{
    let mut out: Vec<Vec<char>> = Vec::new();
    let mut k: usize = 0;
    while k < v.len()
        invariant
            k <= v@.len(),
            texts_view(out@) == strings_view(v@).take(k as int),
        decreases v.len() - k,
    {
        let x = chars_of(v[k].as_str());
        views_push(&mut out, x);
        proof {
            assert(strings_view(v@).take(k + 1) =~= strings_view(v@).take(k as int).push(v@[k as int]@));
        }
        k = k + 1;
    }
    assert(strings_view(v@).take(v@.len() as int) =~= strings_view(v@));
    out
}

/// Splits a text into pieces of at most `chunk_size` characters at the
/// separators, coarsest first (`rsplit`); the pieces give back the text.
pub fn recursive_split(text: &str, separators: &[String], chunk_size: usize) -> (r: Vec<String>)
    requires
        chunk_size >= 1,
    ensures
        strings_view(r@) == rsplit(text@, strings_view(separators@), 0, chunk_size as int),
        concat(strings_view(r@)) == text@,
        all_fit(strings_view(r@), chunk_size as int),
{
    let t = chars_of(text);
    let seps = texts_of(separators);
    let pieces = recursive_pieces(&t, &seps, 0, chunk_size);
    proof {
        lemma_rsplit(t@, texts_view(seps@), 0, chunk_size as int);
    }
    strings_of(&pieces)
}

/// Cuts a text into runs of `chunk_size` characters (`hard_pieces`).
pub fn hard_split(text: &str, chunk_size: usize) -> (r: Vec<String>)
    requires
        chunk_size >= 1,
    ensures
        strings_view(r@) == hard_pieces(text@, chunk_size as int),
{
    let t = chars_of(text);
    let pieces = hard_split_chars(&t, chunk_size);
    strings_of(&pieces)
}

/// Pieces gathered into chunks: the running chunk's text and start, the
/// offset reached, and the chunks so far.
pub struct AggState {
    pub cur: Seq<char>,
    pub cstart: int,
    pub offset: int,
    pub out: Seq<ChunkSpec>,
}

/// Closes the running chunk when it is not blank.
pub open spec fn agg_flush(st: AggState) -> Seq<ChunkSpec> {
    let tr = trim(st.cur);
    if tr.len() > 0 {
        st.out.push(ChunkSpec { text: tr, start: st.cstart, end: st.offset, index: st.out.len() as int, meta: MetaSpec::Empty })
    } else {
        st.out
    }
}

/// Takes one piece: when it would make the running chunk exceed `cs`, the
/// chunk is closed and the next one starts with its last `ov` characters.
pub open spec fn agg_step(st: AggState, piece: Seq<char>, cs: int, ov: int) -> AggState {
    if st.cur.len() + piece.len() > cs && st.cur.len() > 0 {
        let keep = if ov < st.cur.len() { ov } else { st.cur.len() as int };
        AggState {
            cur: st.cur.subrange(st.cur.len() - keep, st.cur.len() as int) + piece,
            cstart: if st.offset >= keep { st.offset - keep } else { 0 },
            offset: st.offset + piece.len(),
            out: agg_flush(st),
        }
    } else {
        AggState { cur: st.cur + piece, cstart: st.cstart, offset: st.offset + piece.len(), out: st.out }
    }
}

pub open spec fn agg_fold(ps: Seq<Seq<char>>, cs: int, ov: int) -> AggState
    decreases ps.len(),
{
    if ps.len() == 0 {
        AggState { cur: Seq::empty(), cstart: 0, offset: 0, out: Seq::empty() }
    } else {
        agg_step(agg_fold(ps.drop_last(), cs, ov), ps.last(), cs, ov)
    }
}

/// The chunks of the pieces: gathered up to `cs` characters, with `ov`
/// characters carried over, the last running chunk closed.
pub open spec fn gathered_chunks(ps: Seq<Seq<char>>, cs: int, ov: int) -> Seq<ChunkSpec> {
    agg_flush(agg_fold(ps, cs, ov))
}

proof fn lemma_agg_fold(ps: Seq<Seq<char>>, cs: int, ov: int)
    requires
        ov >= 0,
    ensures
        agg_fold(ps, cs, ov).offset == concat(ps).len(),
        agg_fold(ps, cs, ov).cur.len() <= agg_fold(ps, cs, ov).offset,
        0 <= agg_fold(ps, cs, ov).cstart,
    decreases ps.len(),
{
    if ps.len() > 0 {
        lemma_agg_fold(ps.drop_last(), cs, ov);
    }
}

proof fn lemma_concat_prefix(ps: Seq<Seq<char>>, k: int)
    requires
        0 <= k <= ps.len(),
    ensures
        concat(ps.take(k)).len() <= concat(ps).len(),
{
    lemma_concat_append(ps.take(k), ps.skip(k));
    assert(ps.take(k) + ps.skip(k) =~= ps);
}

/// Gathers pieces into chunks (`gathered_chunks`).
fn gather_pieces(pieces: &Vec<Vec<char>>, chunk_size: usize, overlap: usize) -> (r: Vec<RawChunk>)
    requires
        concat(texts_view(pieces@)).len() <= usize::MAX,
    ensures
        raw_view(r@) == gathered_chunks(texts_view(pieces@), chunk_size as int, overlap as int),
{
    let ghost pv = texts_view(pieces@);
    let ghost cs = chunk_size as int;
    let ghost ov = overlap as int;
    let mut chunks: Vec<RawChunk> = Vec::new();
    let mut cur: Vec<char> = Vec::new();
    let mut cstart: usize = 0;
    let mut offset: usize = 0;
    let mut k: usize = 0;
    proof {
        assert(pv.take(0) =~= Seq::<Seq<char>>::empty());
        assert(raw_view(chunks@) =~= Seq::<ChunkSpec>::empty());
    }
    while k < pieces.len()
        invariant
            pv == texts_view(pieces@),
            concat(pv).len() <= usize::MAX,
            k <= pv.len(),
            (AggState { cur: cur@, cstart: cstart as int, offset: offset as int, out: raw_view(chunks@) }) == agg_fold(
                pv.take(k as int),
                cs,
                ov,
            ),
            cs == chunk_size,
            ov == overlap,
        decreases pieces.len() - k,
    {
        let piece = &pieces[k];
        proof {
            assert(pv[k as int] == piece@);
            assert(pv.take(k + 1).drop_last() =~= pv.take(k as int));
            assert(pv.take(k + 1).last() == piece@);
            lemma_agg_fold(pv.take(k + 1), cs, ov);
            lemma_agg_fold(pv.take(k as int), cs, ov);
            lemma_concat_prefix(pv, k + 1);
        }
        let pl = piece.len();
        let cl = cur.len();
        if cl + pl > chunk_size && cl > 0 {
            let tr = trimmed(&cur);
            if tr.len() > 0 {
                let c = RawChunk { text: tr, start: cstart, end: offset, index: chunks.len(), metadata: ChunkMetadata::Empty };
                proof {
                    lemma_raw_view_push(chunks@, c);
                }
                chunks.push(c);
            }
            let keep = if overlap < cl { overlap } else { cl };
            let mut next = slice_to_vec(&cur, cl - keep, cl);
            append_chars(&mut next, piece.as_slice());
            cur = next;
            cstart = if offset >= keep { offset - keep } else { 0 };
        } else {
            append_chars(&mut cur, piece.as_slice());
        }
        offset = offset + pl;
        k = k + 1;
    }
    proof {
        assert(pv.take(pv.len() as int) =~= pv);
    }
    let tr = trimmed(&cur);
    if tr.len() > 0 {
        let c = RawChunk { text: tr, start: cstart, end: offset, index: chunks.len(), metadata: ChunkMetadata::Empty };
        proof {
            lemma_raw_view_push(chunks@, c);
        }
        chunks.push(c);
    }
    chunks
}

/// The chunks of the recursive character split: the text's pieces
/// (`rsplit`, separators from the first on) gathered into chunks of at most
/// `cs` characters of new text, each next chunk starting with the last `ov`
/// characters of the one before.
pub open spec fn recursive_chunks(t: Seq<char>, seps: Seq<Seq<char>>, cs: int, ov: int) -> Seq<ChunkSpec> {
    gathered_chunks(rsplit(t, seps, 0, cs), cs, ov)
}

/// Every chunk is the trimmed text of its span `[start, end)` of `t`.
pub open spec fn spans_exact(v: Seq<ChunkSpec>, t: Seq<char>) -> bool {
    forall|k: int|
        0 <= k < v.len() ==> 0 <= #[trigger] v[k].start < v[k].end <= t.len() && v[k].text == trim(
            t.subrange(v[k].start, v[k].end),
        )
}

/// Some chunk's span `[start, end)` holds position `i`.
pub open spec fn span_holds(v: Seq<ChunkSpec>, i: int) -> bool {
    exists|k: int| 0 <= k < v.len() && #[trigger] v[k].start <= i && i < v[k].end
}

proof fn lemma_flush_exact(st: AggState, t: Seq<char>)
    requires
        spans_exact(st.out, t),
        0 <= st.cstart <= st.offset <= t.len(),
        st.cur == t.subrange(st.cstart, st.offset),
        forall|i: int| 0 <= i < st.cstart && !is_ws(#[trigger] t[i]) ==> span_holds(st.out, i),
    ensures
        spans_exact(agg_flush(st), t),
        forall|i: int| 0 <= i < st.offset && !is_ws(#[trigger] t[i]) ==> span_holds(agg_flush(st), i),
        forall|i: int| 0 <= i < st.cstart && !is_ws(#[trigger] t[i]) ==> span_holds(agg_flush(st), i),
{
    let r = agg_flush(st);
    lemma_trim_empty(st.cur);
    assert(spans_exact(r, t)) by {
        assert forall|k: int| 0 <= k < r.len() implies 0 <= #[trigger] r[k].start < r[k].end <= t.len() && r[k].text
            == trim(t.subrange(r[k].start, r[k].end)) by {
            if k < st.out.len() {
                assert(r[k] == st.out[k]);
            }
        }
    }
    assert forall|i: int| 0 <= i < st.offset && !is_ws(#[trigger] t[i]) implies span_holds(r, i) by {
        if i < st.cstart {
            let k = choose|k: int| 0 <= k < st.out.len() && #[trigger] st.out[k].start <= i && i < st.out[k].end;
            assert(r[k] == st.out[k]);
            assert(r[k].start <= i && i < r[k].end);
        } else {
            assert(st.cur[i - st.cstart] == t[i]);
            let n = st.out.len() as int;
            assert(r[n].start <= i && i < r[n].end);
        }
    }
    assert forall|i: int| 0 <= i < st.cstart && !is_ws(#[trigger] t[i]) implies span_holds(r, i) by {
        let k = choose|k: int| 0 <= k < st.out.len() && #[trigger] st.out[k].start <= i && i < st.out[k].end;
        assert(r[k] == st.out[k]);
        assert(r[k].start <= i && i < r[k].end);
    }
}

proof fn lemma_gather_exact(ps: Seq<Seq<char>>, cs: int)
    ensures
        ({
            let st = agg_fold(ps, cs, 0);
            let t = concat(ps);
            &&& 0 <= st.cstart <= st.offset == t.len()
            &&& st.cur == t.subrange(st.cstart, st.offset)
            &&& spans_exact(st.out, t)
            &&& forall|i: int| 0 <= i < st.cstart && !is_ws(#[trigger] t[i]) ==> span_holds(st.out, i)
        }),
    decreases ps.len(),
{
    let t = concat(ps);
    if ps.len() == 0 {
        assert(t.subrange(0, 0) =~= Seq::<char>::empty());
    } else {
        let pre = ps.drop_last();
        let piece = ps.last();
        lemma_gather_exact(pre, cs);
        let st = agg_fold(pre, cs, 0);
        let t0 = concat(pre);
        assert(t == t0 + piece);
        assert forall|a: int, b: int| 0 <= a <= b <= t0.len() implies #[trigger] t.subrange(a, b) == t0.subrange(a, b) by {
            assert(t.subrange(a, b) =~= t0.subrange(a, b));
        }
        assert forall|i: int| 0 <= i < t0.len() implies #[trigger] t[i] == t0[i] by {}
        assert(spans_exact(st.out, t)) by {
            assert forall|k: int| 0 <= k < st.out.len() implies 0 <= #[trigger] st.out[k].start < st.out[k].end <= t.len()
                && st.out[k].text == trim(t.subrange(st.out[k].start, st.out[k].end)) by {
                assert(t.subrange(st.out[k].start, st.out[k].end) == t0.subrange(st.out[k].start, st.out[k].end));
            }
        }
        assert forall|i: int| 0 <= i < st.cstart && !is_ws(#[trigger] t[i]) implies span_holds(st.out, i) by {
            assert(t[i] == t0[i]);
        }
        assert(st.cur == t.subrange(st.cstart, st.offset));
        let r = agg_fold(ps, cs, 0);
        if st.cur.len() + piece.len() > cs && st.cur.len() > 0 {
            lemma_flush_exact(st, t);
            assert(st.cur.subrange(st.cur.len() - 0, st.cur.len() as int) + piece =~= t.subrange(st.offset, t.len() as int));
        } else {
            assert(st.cur + piece =~= t.subrange(st.cstart, t.len() as int));
            if st.cur.len() == 0 {
                assert forall|i: int| 0 <= i < st.offset && !is_ws(#[trigger] t[i]) implies span_holds(st.out, i) by {
                    if i >= st.cstart {
                        assert(st.cur[i - st.cstart] == t[i]);
                    }
                }
            }
        }
    }
}

/// Law: without overlap, the recursive split loses no text: every chunk is
/// the trimmed text of its span `[start, end)` of the text, and every
/// character that is not whitespace lies in some chunk's span.
pub proof fn lemma_recursive_cover(t: Seq<char>, seps: Seq<Seq<char>>, cs: int)
    requires
        cs >= 1,
    ensures
        spans_exact(recursive_chunks(t, seps, cs, 0), t),
        forall|i: int| 0 <= i < t.len() && !is_ws(#[trigger] t[i]) ==> span_holds(recursive_chunks(t, seps, cs, 0), i),
{
    let ps = rsplit(t, seps, 0, cs);
    lemma_rsplit(t, seps, 0, cs);
    lemma_gather_exact(ps, cs);
    let st = agg_fold(ps, cs, 0);
    lemma_flush_exact(st, t);
}

/// The recursive character split of a text (`recursive_chunks`).
pub fn recursive_char_chunks(text: &[char], separators: &[String], chunk_size: usize, overlap: usize) -> (r: Vec<RawChunk>)
    requires
        chunk_size >= 1,
    ensures
        raw_view(r@) == recursive_chunks(text@, strings_view(separators@), chunk_size as int, overlap as int),
{
    let n = text.len();
    let seps = texts_of(separators);
    let pieces = recursive_pieces(text, &seps, 0, chunk_size);
    proof {
        lemma_rsplit(text@, texts_view(seps@), 0, chunk_size as int);
    }
    assert(concat(texts_view(pieces@)).len() == n);
    gather_pieces(&pieces, chunk_size, overlap)
}

} // verus!
