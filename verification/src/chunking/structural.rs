//! Structure-based splitting: Markdown sections by heading, otherwise
//! paragraphs separated by blank lines.
use vstd::prelude::*;
use crate::text::{append_chars, chars_of, first_non_ws, is_ws, lead_ws, lemma_trim_bounds, lemma_trim_idempotent, trail_ws, lemma_trim_end_take, lemma_trim_start_skip, slice_to_vec, string_of, trim, trimmed};
use crate::chunking::chunk::{ChunkMetadata, ChunkResult, ChunkSpec, MetaSpec, RawChunk, chunks_view, copy_metadata, lemma_raw_view_push, raw_view};
use crate::chunking::recursive::{
    concat, hard_pieces, hard_split_chars, lemma_concat_append, lemma_hard_pieces, lemma_hard_pieces_at, lemma_split_from, sep_tail, split_from,
    split_on, texts_view,
};

verus! {

/// The lines of `t[i..]`, each with its line feed (`str::split_inclusive('\n')`).
pub open spec fn lines_from(t: Seq<char>, i: int) -> Seq<Seq<char>>
    decreases t.len() - i,
{
    if i < 0 || i >= t.len() {
        Seq::empty()
    } else {
        let j = line_end(t, i);
        proof {
            lemma_line_end(t, i);
        }
        seq![t.subrange(i, j)] + lines_from(t, j)
    }
}

/// One past the first line feed at or after `i`, or the end of the text.
pub open spec fn line_end(t: Seq<char>, i: int) -> int
    decreases t.len() - i,
{
    if i < 0 || i >= t.len() {
        t.len() as int
    } else if t[i] == '\n' {
        i + 1
    } else {
        line_end(t, i + 1)
    }
}

pub proof fn lemma_line_end(t: Seq<char>, i: int)
    requires
        0 <= i < t.len(),
    ensures
        i < line_end(t, i) <= t.len(),
        forall|k: int| i <= k < line_end(t, i) - 1 ==> t[k] != '\n',
    decreases t.len() - i,
{
    if t[i] != '\n' {
        if i + 1 < t.len() {
            lemma_line_end(t, i + 1);
        } else {
            assert(line_end(t, i + 1) == t.len());
        }
    }
}

/// Whether a line of the text starts with `#` at position `i`.
pub open spec fn heading_at(t: Seq<char>, i: int) -> bool {
    0 <= i < t.len() && t[i] == '#' && (i == 0 || t[i - 1] == '\n')
}

/// Whether some line of the text starts with `#`.
pub open spec fn has_heading(t: Seq<char>) -> bool {
    exists|i: int| #[trigger] heading_at(t, i)
}

/// The lines of a text (`lines_from`).
fn split_lines(t: &[char]) -> (r: Vec<Vec<char>>)
    ensures
        texts_view(r@) == lines_from(t@, 0),
{
    let mut out: Vec<Vec<char>> = Vec::new();
    let mut i: usize = 0;
    let n = t.len();
    proof {
        assert(texts_view(out@) + lines_from(t@, 0) =~= lines_from(t@, 0));
    }
    while i < n
        invariant
            n == t@.len(),
            i <= n,
            texts_view(out@) + lines_from(t@, i as int) == lines_from(t@, 0),
        decreases n - i,
    {
        let mut j = i;
        while j < n && t[j] != '\n'
            invariant
                i <= j <= n,
                n == t@.len(),
                line_end(t@, j as int) == line_end(t@, i as int),
            decreases n - j,
        {
            j = j + 1;
        }
        let e = if j < n { j + 1 } else { n };
        proof {
            lemma_line_end(t@, i as int);
        }
        let line = slice_to_vec(t, i, e);
        let ghost before = out@;
        out.push(line);
        proof {
            assert(texts_view(out@) =~= texts_view(before).push(line@));
            assert(texts_view(before) + lines_from(t@, i as int) =~= texts_view(out@) + lines_from(t@, e as int));
        }
        i = e;
    }
    proof {
        assert(texts_view(out@) + Seq::<Seq<char>>::empty() =~= texts_view(out@));
    }
    out
}

/// Whether some line of the text starts with `#` (`has_heading`).
pub fn is_markdown(t: &[char]) -> (r: bool)
    ensures
        r == has_heading(t@),
{
    let mut i: usize = 0;
    while i < t.len()
        invariant
            i <= t@.len(),
            forall|k: int| 0 <= k < i ==> !#[trigger] heading_at(t@, k),
        decreases t.len() - i,
    {
        if t[i] == '#' && (i == 0 || t[i - 1] == '\n') {
            assert(heading_at(t@, i as int));
            return true;
        }
        i = i + 1;
    }
    assert forall|k: int| !#[trigger] heading_at(t@, k) by {
        if 0 <= k < t@.len() {
        }
    }
    false
}

/// A Markdown section (starting at offset `start`, ending at `end`) closed
/// into chunks: its trimmed text (nothing when blank), tagged with the
/// section's heading and spanning the section; when longer than `cs`, cut
/// into runs of `cs` characters, each spanning its own characters.
pub open spec fn md_flush(out: Seq<ChunkSpec>, section: Seq<char>, title: Option<Seq<char>>, start: int, end: int, cs: int) -> Seq<ChunkSpec> {
    let tr = trim(section);
    if tr.len() == 0 {
        out
    } else if tr.len() > cs {
        let ps = hard_pieces(tr, cs);
        let first = start + lead_ws(section);
        out + Seq::new(
            ps.len(),
            |j: int|
                ChunkSpec {
                    text: ps[j],
                    start: first + j * cs,
                    end: first + j * cs + ps[j].len(),
                    index: out.len() + j,
                    meta: MetaSpec::Title(title),
                },
        )
    } else {
        out.push(ChunkSpec { text: tr, start, end, index: out.len() as int, meta: MetaSpec::Title(title) })
    }
}

/// The section being read, its heading and start, the offset reached, and
/// the chunks so far.
pub struct MdState {
    pub section: Seq<char>,
    pub title: Option<Seq<char>>,
    pub cstart: int,
    pub offset: int,
    pub out: Seq<ChunkSpec>,
}

/// Takes one line: a heading line closes the section and starts a new one.
pub open spec fn md_step(st: MdState, line: Seq<char>, cs: int) -> MdState {
    let ls = st.offset;
    if line.len() > 0 && line[0] == '#' {
        MdState {
            section: line,
            title: Some(trim(line)),
            cstart: ls,
            offset: ls + line.len(),
            out: md_flush(st.out, st.section, st.title, st.cstart, ls, cs),
        }
    } else {
        MdState { section: st.section + line, title: st.title, cstart: st.cstart, offset: ls + line.len(), out: st.out }
    }
}

pub open spec fn md_fold(lines: Seq<Seq<char>>, cs: int) -> MdState
    decreases lines.len(),
{
    if lines.len() == 0 {
        MdState { section: Seq::empty(), title: None, cstart: 0, offset: 0, out: Seq::empty() }
    } else {
        md_step(md_fold(lines.drop_last(), cs), lines.last(), cs)
    }
}

/// The last `n` characters of `s` (all of them when it is shorter).
pub open spec fn tail_chars(s: Seq<char>, n: int) -> Seq<char> {
    if n < s.len() {
        s.subrange(s.len() - n, s.len() as int)
    } else {
        s
    }
}

/// With a positive overlap and more than one chunk, each chunk but the first
/// gets the last `ov` characters of the chunk before it in front; chunks are
/// numbered by position.
pub open spec fn prev_tail_overlap(v: Seq<ChunkSpec>, ov: int) -> Seq<ChunkSpec> {
    if ov > 0 && v.len() > 1 {
        Seq::new(
            v.len(),
            |i: int|
                ChunkSpec {
                    text: (if i > 0 {
                        tail_chars(v[i - 1].text, ov)
                    } else {
                        Seq::empty()
                    }) + v[i].text,
                    start: v[i].start,
                    end: v[i].end,
                    index: i,
                    meta: v[i].meta,
                },
        )
    } else {
        v
    }
}

/// The Markdown split: sections start at heading lines; each section gives
/// `md_flush` chunks; then the overlap is applied.
pub open spec fn markdown_chunks(t: Seq<char>, cs: int, ov: int) -> Seq<ChunkSpec> {
    let st = md_fold(lines_from(t, 0), cs);
    prev_tail_overlap(md_flush(st.out, st.section, st.title, st.cstart, st.offset, cs), ov)
}

proof fn lemma_lines_concat(t: Seq<char>, i: int)
    requires
        0 <= i <= t.len(),
    ensures
        concat(lines_from(t, i)) == t.subrange(i, t.len() as int),
    decreases t.len() - i,
{
    if i < t.len() {
        lemma_line_end(t, i);
        let j = line_end(t, i);
        lemma_lines_concat(t, j);
        lemma_concat_append(seq![t.subrange(i, j)], lines_from(t, j));
        assert(seq![t.subrange(i, j)].drop_last() =~= Seq::<Seq<char>>::empty());
        assert(concat(seq![t.subrange(i, j)]) == concat(seq![t.subrange(i, j)].drop_last()) + t.subrange(i, j));
        assert(concat(Seq::<Seq<char>>::empty()) =~= Seq::<char>::empty());
        assert(t.subrange(i, j) + t.subrange(j, t.len() as int) =~= t.subrange(i, t.len() as int));
    } else {
        assert(t.subrange(i, t.len() as int) =~= Seq::<char>::empty());
    }
}

proof fn lemma_md_offset(lines: Seq<Seq<char>>, cs: int)
    ensures
        md_fold(lines, cs).offset == concat(lines).len(),
        0 <= md_fold(lines, cs).cstart <= md_fold(lines, cs).offset,
        md_fold(lines, cs).cstart + md_fold(lines, cs).section.len() == md_fold(lines, cs).offset,
    decreases lines.len(),
{
    if lines.len() > 0 {
        lemma_md_offset(lines.drop_last(), cs);
    }
}

/// Closes a Markdown section into chunks (`md_flush`).
fn flush_section(chunks: &mut Vec<RawChunk>, section: &Vec<char>, title: &Option<Vec<char>>, start: usize, end: usize, cs: usize)
    requires
        cs >= 1,
        start + section@.len() <= usize::MAX,
    ensures
        raw_view(final(chunks)@) == md_flush(
            raw_view(old(chunks)@),
            section@,
            match title {
                Some(x) => Some(x@),
                None => None,
            },
            start as int,
            end as int,
            cs as int,
        ),
{
    let ghost tv = match title {
        Some(x) => Some(x@),
        None => None::<Seq<char>>,
    };
    let tr = trimmed(section);
    if tr.len() == 0 {
        return;
    }
    if tr.len() > cs {
        let pieces = hard_split_chars(&tr, cs);
        let ghost ps = texts_view(pieces@);
        let ghost out0 = raw_view(chunks@);
        let lead = first_non_ws(section.as_slice(), 0, section.len());
        proof {
            assert(section@.subrange(0, section@.len() as int) =~= section@);
            lemma_trim_bounds(section@);
            lemma_trim_start_skip(section@);
            lemma_trim_end_take(section@.skip(lead_ws(section@) as int));
        }
        let ghost first = start + lead;
        let mut pos: usize = start + lead;
        let mut k: usize = 0;
        while k < pieces.len()
            invariant
                ps == texts_view(pieces@),
                ps == hard_pieces(tr@, cs as int),
                cs >= 1,
                k <= ps.len(),
                first == start + lead_ws(section@),
                first + tr@.len() <= usize::MAX,
                k < ps.len() ==> pos == first + k * cs,
                raw_view(chunks@) == out0 + Seq::new(
                    k as nat,
                    |j: int|
                        ChunkSpec {
                            text: ps[j],
                            start: first + j * cs,
                            end: first + j * cs + ps[j].len(),
                            index: out0.len() + j,
                            meta: MetaSpec::Title(tv),
                        },
                ),
                tv == match title {
                    Some(x) => Some(x@),
                    None => None::<Seq<char>>,
                },
            decreases pieces.len() - k,
        {
            proof {
                assert(ps[k as int] == pieces@[k as int]@);
                lemma_hard_pieces_at(tr@, cs as int);
                assert(k * cs + ps[k as int].len() <= tr@.len());
                assert(k + 1 < ps.len() ==> ps[k as int].len() == cs);
            }
            let piece_end = pos + pieces[k].len();
            let t = match title {
                Some(x) => Some(string_of(x.as_slice())),
                None => None,
            };
            let c = RawChunk {
                text: slice_to_vec(pieces[k].as_slice(), 0, pieces[k].len()),
                start: pos,
                end: piece_end,
                index: chunks.len(),
                metadata: ChunkMetadata::Title(t),
            };
            proof {
                assert(pieces@[k as int]@.subrange(0, pieces@[k as int]@.len() as int) =~= pieces@[k as int]@);
                assert(ps[k as int] == pieces@[k as int]@);
                lemma_raw_view_push(chunks@, c);
            }
            let ghost before = raw_view(chunks@);
            chunks.push(c);
            proof {
                assert(raw_view(chunks@) =~= out0 + Seq::new(
                    (k + 1) as nat,
                    |j: int|
                        ChunkSpec {
                            text: ps[j],
                            start: first + j * cs,
                            end: first + j * cs + ps[j].len(),
                            index: out0.len() + j,
                            meta: MetaSpec::Title(tv),
                        },
                ));
                if k + 1 < ps.len() {
                    assert((k + 1) * cs == k * cs + cs) by (nonlinear_arith);
                }
            }
            pos = piece_end;
            k = k + 1;
        }
    } else {
        let t = match title {
            Some(x) => Some(string_of(x.as_slice())),
            None => None,
        };
        let c = RawChunk { text: tr, start, end, index: chunks.len(), metadata: ChunkMetadata::Title(t) };
        proof {
            lemma_raw_view_push(chunks@, c);
        }
        chunks.push(c);
    }
}

/// Puts the last `ov` characters of each chunk in front of the next one
/// (`prev_tail_overlap`).
fn apply_prev_tail(chunks: Vec<RawChunk>, ov: usize) -> (r: Vec<RawChunk>)
    ensures
        raw_view(r@) == prev_tail_overlap(raw_view(chunks@), ov as int),
{
    if !(ov > 0 && chunks.len() > 1) {
        return chunks;
    }
    let ghost v = raw_view(chunks@);
    let ghost expected = prev_tail_overlap(v, ov as int);
    let mut out: Vec<RawChunk> = Vec::new();
    let mut i: usize = 0;
    while i < chunks.len()
        invariant
            v == raw_view(chunks@),
            expected == prev_tail_overlap(v, ov as int),
            ov > 0 && v.len() > 1,
            i <= v.len(),
            raw_view(out@) == expected.take(i as int),
        decreases chunks.len() - i,
    {
        let c = &chunks[i];
        let mut text: Vec<char> = Vec::new();
        if i > 0 {
            let prev = &chunks[i - 1];
            let pl = prev.text.len();
            let keep = if ov < pl { ov } else { pl };
            text = slice_to_vec(prev.text.as_slice(), pl - keep, pl);
            proof {
                assert(v[i - 1] == prev@);
                if ov < pl {
                } else {
                    assert(prev.text@.subrange(0, pl as int) =~= prev.text@);
                }
            }
        }
        append_chars(&mut text, c.text.as_slice());
        let nc = RawChunk { text, start: c.start, end: c.end, index: i, metadata: copy_metadata(&c.metadata) };
        proof {
            assert(v[i as int] == c@);
            assert(nc@ == expected[i as int]);
            lemma_raw_view_push(out@, nc);
            assert(expected.take(i + 1) =~= expected.take(i as int).push(expected[i as int]));
        }
        out.push(nc);
        i = i + 1;
    }
    assert(expected.take(v.len() as int) =~= expected);
    out
}

/// Splits a Markdown text at its heading lines (`markdown_chunks`).
pub fn split_markdown(text: &[char], chunk_size: usize, overlap: usize) -> (r: Vec<RawChunk>)
    requires
        chunk_size >= 1,
    ensures
        raw_view(r@) == markdown_chunks(text@, chunk_size as int, overlap as int),
{
    let lines = split_lines(text);
    let ghost lv = texts_view(lines@);
    let n = text.len();
    proof {
        lemma_lines_concat(text@, 0);
        assert(text@.subrange(0, text@.len() as int) =~= text@);
    }
    let mut chunks: Vec<RawChunk> = Vec::new();
    let mut section: Vec<char> = Vec::new();
    let mut title: Option<Vec<char>> = None;
    let mut cstart: usize = 0;
    let mut offset: usize = 0;
    let mut k: usize = 0;
    proof {
        assert(lv.take(0) =~= Seq::<Seq<char>>::empty());
        assert(raw_view(chunks@) =~= Seq::<ChunkSpec>::empty());
    }
    while k < lines.len()
        invariant
            lv == texts_view(lines@),
            concat(lv) == text@,
            n == text@.len(),
            chunk_size >= 1,
            k <= lv.len(),
            (MdState {
                section: section@,
                title: match title {
                    Some(x) => Some(x@),
                    None => None,
                },
                cstart: cstart as int,
                offset: offset as int,
                out: raw_view(chunks@),
            }) == md_fold(lv.take(k as int), chunk_size as int),
        decreases lines.len() - k,
    {
        let line = &lines[k];
        proof {
            assert(lv[k as int] == line@);
            assert(lv.take(k + 1).drop_last() =~= lv.take(k as int));
            assert(lv.take(k + 1).last() == line@);
            lemma_md_offset(lv.take(k + 1), chunk_size as int);
            lemma_md_offset(lv.take(k as int), chunk_size as int);
            lemma_concat_append(lv.take(k + 1), lv.skip(k + 1));
            assert(lv.take(k + 1) + lv.skip(k + 1) =~= lv);
        }
        let line_start = offset;
        if line.len() > 0 && line[0] == '#' {
            flush_section(&mut chunks, &section, &title, cstart, line_start, chunk_size);
            section = slice_to_vec(line.as_slice(), 0, line.len());
            assert(section@ =~= line@);
            title = Some(trimmed(line.as_slice()));
            cstart = line_start;
        } else {
            append_chars(&mut section, line.as_slice());
        }
        offset = offset + line.len();
        k = k + 1;
    }
    proof {
        assert(lv.take(lv.len() as int) =~= lv);
        lemma_md_offset(lv, chunk_size as int);
    }
    flush_section(&mut chunks, &section, &title, cstart, offset, chunk_size);
    apply_prev_tail(chunks, overlap)
}

/// The blank line that separates paragraphs.
pub open spec fn para_sep() -> Seq<char> {
    seq!['\n', '\n']
}

/// Paragraphs gathered into chunks: the running chunk's text and start, the
/// offset reached, and the chunks so far.
pub struct ParaState {
    pub cur: Seq<char>,
    pub cstart: int,
    pub offset: int,
    pub out: Seq<ChunkSpec>,
}

/// Closes the running chunk when it is not blank.
pub open spec fn para_flush(st: ParaState) -> Seq<ChunkSpec> {
    let tr = trim(st.cur);
    if tr.len() > 0 {
        st.out.push(ChunkSpec { text: tr, start: st.cstart, end: st.offset, index: st.out.len() as int, meta: MetaSpec::Empty })
    } else {
        st.out
    }
}

/// Takes one paragraph (with the blank line in front unless the running
/// chunk is empty): when it would make the running chunk exceed `cs`, the
/// chunk is closed and the next one starts with its last `ov` characters.
pub open spec fn para_step(st: ParaState, para: Seq<char>, cs: int, ov: int) -> ParaState {
    let pws = if st.cur.len() == 0 {
        para
    } else {
        para_sep() + para
    };
    if st.cur.len() + pws.len() > cs && st.cur.len() > 0 {
        let keep = if ov < st.cur.len() { ov } else { st.cur.len() as int };
        ParaState {
            cur: tail_chars(st.cur, keep) + pws,
            cstart: if st.offset >= keep { st.offset - keep } else { 0 },
            offset: st.offset + pws.len(),
            out: para_flush(st),
        }
    } else {
        ParaState {
            cur: st.cur + pws,
            cstart: if st.cur.len() == 0 { st.offset } else { st.cstart },
            offset: st.offset + pws.len(),
            out: st.out,
        }
    }
}

pub open spec fn para_fold(ps: Seq<Seq<char>>, cs: int, ov: int) -> ParaState
    decreases ps.len(),
{
    if ps.len() == 0 {
        ParaState { cur: Seq::empty(), cstart: 0, offset: 0, out: Seq::empty() }
    } else {
        para_step(para_fold(ps.drop_last(), cs, ov), ps.last(), cs, ov)
    }
}

/// The paragraph split: the paragraphs between blank lines gathered into
/// chunks of about `cs` characters, with `ov` characters carried over.
pub open spec fn paragraph_chunks(t: Seq<char>, cs: int, ov: int) -> Seq<ChunkSpec> {
    para_flush(para_fold(split_from(t, para_sep(), 0), cs, ov))
}

/// `p` occurs in `s`.
pub open spec fn occurs_in(p: Seq<char>, s: Seq<char>) -> bool {
    exists|i: int| 0 <= i && i + p.len() <= s.len() && #[trigger] s.subrange(i, i + p.len()) == p
}

/// `p` occurs in the text of some chunk.
pub open spec fn in_some_chunk(v: Seq<ChunkSpec>, p: Seq<char>) -> bool {
    exists|k: int| 0 <= k < v.len() && occurs_in(p, #[trigger] v[k].text)
}

/// A text that starts and ends with a character that is not whitespace
/// survives trimming any text it occurs in.
proof fn lemma_occurs_trim(x: Seq<char>, s: Seq<char>)
    requires
        x.len() > 0,
        !is_ws(x[0]),
        !is_ws(x.last()),
        occurs_in(x, s),
    ensures
        occurs_in(x, trim(s)),
{
    let i = choose|i: int| 0 <= i && i + x.len() <= s.len() && #[trigger] s.subrange(i, i + x.len()) == x;
    let m = x.len() as int;
    assert(s[i] == x[0]);
    assert(s[i + m - 1] == x[m - 1]);
    lemma_trim_bounds(s);
    lemma_trim_start_skip(s);
    let lw = lead_ws(s) as int;
    if i < lw {
        assert(is_ws(s[i]));
    }
    let u = s.skip(lw);
    lemma_trim_end_take(u);
    let tw = trail_ws(u) as int;
    if i + m > s.len() - tw {
        assert(u[i + m - 1 - lw] == s[i + m - 1]);
    }
    let r = trim(s);
    assert(r == s.subrange(lw, s.len() - tw));
    assert(r.subrange(i - lw, i - lw + m) =~= x);
}

proof fn lemma_occurs_concat(x: Seq<char>, a: Seq<char>, b: Seq<char>)
    requires
        occurs_in(x, a) || occurs_in(x, b),
    ensures
        occurs_in(x, a + b),
{
    let s = a + b;
    if occurs_in(x, a) {
        let i = choose|i: int| 0 <= i && i + x.len() <= a.len() && #[trigger] a.subrange(i, i + x.len()) == x;
        assert(s.subrange(i, i + x.len()) =~= x);
    } else {
        let i = choose|i: int| 0 <= i && i + x.len() <= b.len() && #[trigger] b.subrange(i, i + x.len()) == x;
        assert(s.subrange(a.len() + i, a.len() + i + x.len()) =~= x);
    }
}

/// The trimmed text of a paragraph that is not blank occurs in it, and
/// starts and ends with a character that is not whitespace.
proof fn lemma_trim_occurs(p: Seq<char>)
    requires
        trim(p).len() > 0,
    ensures
        occurs_in(trim(p), p),
        !is_ws(trim(p)[0]),
        !is_ws(trim(p).last()),
{
    lemma_trim_bounds(p);
    lemma_trim_start_skip(p);
    let lw = lead_ws(p) as int;
    lemma_trim_end_take(p.skip(lw));
    let q = trim(p);
    assert(p.subrange(lw, lw + q.len()) == q);
    lemma_trim_idempotent(p);
    crate::chunking::grouping::lemma_trimmed_ends(q);
}

/// Every non-blank paragraph among the first `n` has its trimmed text in
/// some chunk or in the running chunk.
spec fn paras_kept(ps: Seq<Seq<char>>, n: int, st: ParaState) -> bool {
    forall|j: int|
        0 <= j < n && trim(#[trigger] ps[j]).len() > 0 ==> in_some_chunk(st.out, trim(ps[j])) || occurs_in(trim(ps[j]), st.cur)
}

proof fn lemma_para_flush_keeps(st: ParaState, x: Seq<char>)
    requires
        x.len() > 0,
        !is_ws(x[0]),
        !is_ws(x.last()),
        in_some_chunk(st.out, x) || occurs_in(x, st.cur),
    ensures
        in_some_chunk(para_flush(st), x),
{
    let r = para_flush(st);
    if in_some_chunk(st.out, x) {
        let k = choose|k: int| 0 <= k < st.out.len() && occurs_in(x, #[trigger] st.out[k].text);
        if trim(st.cur).len() > 0 {
            assert(r[k] == st.out[k]);
        }
        assert(occurs_in(x, r[k].text));
    } else {
        lemma_occurs_trim(x, st.cur);
        let t = trim(st.cur);
        let i = choose|i: int| 0 <= i && i + x.len() <= t.len() && #[trigger] t.subrange(i, i + x.len()) == x;
        assert(t.len() > 0);
        let n = st.out.len() as int;
        assert(r[n].text == t);
        assert(occurs_in(x, r[n].text));
    }
}

proof fn lemma_para_fold_keeps(ps: Seq<Seq<char>>, cs: int, ov: int)
    ensures
        paras_kept(ps, ps.len() as int, para_fold(ps, cs, ov)),
    decreases ps.len(),
{
    if ps.len() > 0 {
        let pre = ps.drop_last();
        lemma_para_fold_keeps(pre, cs, ov);
        let st = para_fold(pre, cs, ov);
        let para = ps.last();
        let r = para_fold(ps, cs, ov);
        let pws = if st.cur.len() == 0 { para } else { para_sep() + para };
        let overflow = st.cur.len() + pws.len() > cs && st.cur.len() > 0;
        let keep = if ov < st.cur.len() { ov } else { st.cur.len() as int };
        assert(r.cur == (if overflow { tail_chars(st.cur, keep) + pws } else { st.cur + pws }));
        assert(r.out == (if overflow { para_flush(st) } else { st.out }));
        assert forall|j: int| 0 <= j < ps.len() && trim(#[trigger] ps[j]).len() > 0 implies in_some_chunk(r.out, trim(ps[j]))
            || occurs_in(trim(ps[j]), r.cur) by {
            let x = trim(ps[j]);
            lemma_trim_occurs(ps[j]);
            if j == ps.len() - 1 {
                assert(ps[j] == para);
                if st.cur.len() > 0 {
                    lemma_occurs_concat(x, para_sep(), para);
                }
                if overflow {
                    lemma_occurs_concat(x, tail_chars(st.cur, keep), pws);
                } else {
                    lemma_occurs_concat(x, st.cur, pws);
                }
            } else {
                assert(pre[j] == ps[j]);
                if overflow {
                    lemma_para_flush_keeps(st, x);
                } else {
                    if occurs_in(x, st.cur) {
                        lemma_occurs_concat(x, st.cur, pws);
                    }
                }
            }
        }
    }
}

/// Law: the paragraph split loses no paragraph: the trimmed text of every
/// paragraph of the text (between blank lines) that is not blank occurs in
/// the text of some chunk, whatever the chunk size and overlap.
pub proof fn lemma_paragraphs_kept(t: Seq<char>, cs: int, ov: int)
    ensures
        ({
            let ps = split_from(t, para_sep(), 0);
            forall|j: int|
                0 <= j < ps.len() && trim(#[trigger] ps[j]).len() > 0 ==> in_some_chunk(paragraph_chunks(t, cs, ov), trim(ps[j]))
        }),
{
    let ps = split_from(t, para_sep(), 0);
    lemma_para_fold_keeps(ps, cs, ov);
    let st = para_fold(ps, cs, ov);
    assert forall|j: int| 0 <= j < ps.len() && trim(#[trigger] ps[j]).len() > 0 implies in_some_chunk(
        paragraph_chunks(t, cs, ov),
        trim(ps[j]),
    ) by {
        lemma_trim_occurs(ps[j]);
        lemma_para_flush_keeps(st, trim(ps[j]));
    }
}

/// The length of the first `k` paragraphs with the blank lines between them.
pub open spec fn joined_len(ps: Seq<Seq<char>>, k: int) -> int
    decreases k,
{
    if k <= 0 {
        0
    } else if k == 1 {
        ps[0].len() as int
    } else {
        joined_len(ps, k - 1) + 2 + ps[k - 1].len()
    }
}

proof fn lemma_para_fold_offset(ps: Seq<Seq<char>>, k: int, cs: int, ov: int)
    requires
        0 <= k <= ps.len(),
        ov >= 0,
    ensures
        para_fold(ps.take(k), cs, ov).offset <= joined_len(ps, k),
        para_fold(ps.take(k), cs, ov).cur.len() <= para_fold(ps.take(k), cs, ov).offset,
        0 <= para_fold(ps.take(k), cs, ov).cstart,
        0 <= para_fold(ps.take(k), cs, ov).offset,
        k == 0 ==> para_fold(ps.take(k), cs, ov).cur.len() == 0,
    decreases k,
{
    if k > 0 {
        lemma_para_fold_offset(ps, k - 1, cs, ov);
        assert(ps.take(k).drop_last() =~= ps.take(k - 1));
        assert(ps.take(k).last() == ps[k - 1]);
    }
}

proof fn lemma_joined_len(ps: Seq<Seq<char>>, k: int)
    requires
        1 <= k <= ps.len(),
    ensures
        joined_len(ps, k) + sep_tail(ps, para_sep(), k).len() == ps[0].len() + sep_tail(ps, para_sep(), 1).len(),
    decreases k,
{
    if k > 1 {
        lemma_joined_len(ps, k - 1);
    }
}

/// Splits a text into paragraphs gathered into chunks (`paragraph_chunks`).
pub fn split_paragraphs(text: &[char], chunk_size: usize, overlap: usize) -> (r: Vec<RawChunk>)
    ensures
        raw_view(r@) == paragraph_chunks(text@, chunk_size as int, overlap as int),
{
    let n = text.len();
    let sep: Vec<char> = vec!['\n', '\n'];
    assert(sep@ =~= para_sep());
    let paras = split_on(text, sep.as_slice());
    let ghost pv = texts_view(paras@);
    proof {
        lemma_split_from(text@, para_sep(), 0);
        assert(text@.subrange(0, text@.len() as int) =~= text@);
    }
    let mut chunks: Vec<RawChunk> = Vec::new();
    let mut cur: Vec<char> = Vec::new();
    let mut cstart: usize = 0;
    let mut offset: usize = 0;
    let mut k: usize = 0;
    proof {
        assert(pv.take(0) =~= Seq::<Seq<char>>::empty());
        assert(raw_view(chunks@) =~= Seq::<ChunkSpec>::empty());
    }
    while k < paras.len()
        invariant
            pv == texts_view(paras@),
            pv.len() >= 1,
            pv[0] + sep_tail(pv, para_sep(), 1) == text@,
            n == text@.len(),
            sep@ == para_sep(),
            k <= pv.len(),
            (ParaState { cur: cur@, cstart: cstart as int, offset: offset as int, out: raw_view(chunks@) }) == para_fold(
                pv.take(k as int),
                chunk_size as int,
                overlap as int,
            ),
        decreases paras.len() - k,
    {
        let para = &paras[k];
        proof {
            assert(pv[k as int] == para@);
            assert(pv.take(k + 1).drop_last() =~= pv.take(k as int));
            assert(pv.take(k + 1).last() == para@);
            lemma_para_fold_offset(pv, k as int, chunk_size as int, overlap as int);
            lemma_para_fold_offset(pv, k + 1, chunk_size as int, overlap as int);
            lemma_joined_len(pv, k + 1);
        }
        let mut pws: Vec<char> = Vec::new();
        if cur.len() > 0 {
            pws.push('\n');
            pws.push('\n');
        }
        append_chars(&mut pws, para.as_slice());
        proof {
            if cur@.len() == 0 {
                assert(pws@ =~= para@);
            } else {
                assert(pws@ =~= para_sep() + para@);
            }
        }
        let pl = pws.len();
        let cl = cur.len();
        if cl + pl > chunk_size && cl > 0 {
            let tr = trimmed(&cur);
            if tr.len() > 0 {
                let c = RawChunk { text: tr, start: cstart, end: offset, index: chunks.len(), metadata: ChunkMetadata::Empty };
                proof {
                    lemma_raw_view_push(chunks@, c);
                }
                chunks.push(c);
            }
            let keep = if overlap < cl { overlap } else { cl };
            let mut next = slice_to_vec(&cur, cl - keep, cl);
            proof {
                if keep == cl {
                    assert(cur@.subrange(0, cl as int) =~= cur@);
                }
            }
            append_chars(&mut next, pws.as_slice());
            cur = next;
            cstart = if offset >= keep { offset - keep } else { 0 };
        } else {
            if cl == 0 {
                cstart = offset;
            }
            append_chars(&mut cur, pws.as_slice());
        }
        offset = offset + pl;
        k = k + 1;
    }
    proof {
        assert(pv.take(pv.len() as int) =~= pv);
    }
    let tr = trimmed(&cur);
    if tr.len() > 0 {
        let c = RawChunk { text: tr, start: cstart, end: offset, index: chunks.len(), metadata: ChunkMetadata::Empty };
        proof {
            lemma_raw_view_push(chunks@, c);
        }
        chunks.push(c);
    }
    chunks
}

} // verus!
