//! Fixed-size splitting: a window of `chunk_size` characters slides over the
//! text, `step` characters at a time.
use vstd::prelude::*;
use crate::text::{chars_of, is_ws, lemma_trim_bounds, lemma_trim_empty, trim, trimmed_slice};
use crate::chunking::chunk::{ChunkMetadata, ChunkResult, ChunkSpec, MetaSpec, RawChunk, chunks_view, finish_chunks, indexed, lemma_raw_view_push, raw_view};

verus! {

/// The windows from `start` on: each covers `[start, min(start + cs, len))`
/// and yields its trimmed text unless that is empty; the next one starts
/// `step` characters later, until a window reaches the end of the text.
pub open spec fn fixed_windows(t: Seq<char>, start: int, cs: int, step: int, idx: int) -> Seq<ChunkSpec>
    decreases if start < t.len() { t.len() - start } else { 0 },
{
    if start < 0 || start >= t.len() || step < 1 {
        Seq::empty()
    } else {
        let end = if start + cs < t.len() { start + cs } else { t.len() as int };
        let tr = trim(t.subrange(start, end));
        let here = if tr.len() > 0 {
            seq![ChunkSpec { text: tr, start, end, index: idx, meta: MetaSpec::Empty }]
        } else {
            Seq::<ChunkSpec>::empty()
        };
        if end >= t.len() {
            here
        } else {
            here + fixed_windows(t, start + step, cs, step, idx + here.len())
        }
    }
}

/// Each chunk is the trimmed text of its window `[start, end)`, which holds
/// at most `cs` characters and lies in the text; no chunk is empty.
pub open spec fn windows_ok(v: Seq<ChunkSpec>, t: Seq<char>, cs: int) -> bool {
    forall|i: int|
        0 <= i < v.len() ==> {
            let c = #[trigger] v[i];
            &&& 0 <= c.start < c.end <= t.len()
            &&& c.end - c.start <= cs
            &&& c.text == trim(t.subrange(c.start, c.end))
            &&& c.text.len() > 0
            &&& c.meta == MetaSpec::Empty
        }
}

/// Indices run on from `idx`.
pub open spec fn indexed_from(v: Seq<ChunkSpec>, idx: int) -> bool {
    forall|i: int| 0 <= i < v.len() ==> (#[trigger] v[i]).index == idx + i
}

/// Every window of a fixed-size split is the trimmed text of at most `cs`
/// characters of the text, not empty, and the chunks are numbered in order.
pub proof fn lemma_fixed_windows(t: Seq<char>, start: int, cs: int, step: int, idx: int)
    requires
        cs >= 1,
    ensures
        windows_ok(fixed_windows(t, start, cs, step, idx), t, cs),
        indexed_from(fixed_windows(t, start, cs, step, idx), idx),
    decreases if start < t.len() { t.len() - start } else { 0 },
{
    if !(start < 0 || start >= t.len() || step < 1) {
        let end = if start + cs < t.len() { start + cs } else { t.len() as int };
        let tr = trim(t.subrange(start, end));
        let here = if tr.len() > 0 {
            seq![ChunkSpec { text: tr, start, end, index: idx, meta: MetaSpec::Empty }]
        } else {
            Seq::<ChunkSpec>::empty()
        };
        if end < t.len() {
            lemma_fixed_windows(t, start + step, cs, step, idx + here.len());
            let rest = fixed_windows(t, start + step, cs, step, idx + here.len());
            let all = fixed_windows(t, start, cs, step, idx);
            assert(all == here + rest);
            assert forall|i: int| 0 <= i < all.len() implies (#[trigger] all[i]).index == idx + i by {
                if i >= here.len() {
                    assert(all[i] == rest[i - here.len()]);
                }
            }
            assert forall|i: int| 0 <= i < all.len() implies {
                let c = #[trigger] all[i];
                &&& 0 <= c.start < c.end <= t.len()
                &&& c.end - c.start <= cs
                &&& c.text == trim(t.subrange(c.start, c.end))
                &&& c.text.len() > 0
                &&& c.meta == MetaSpec::Empty
            } by {
                if i >= here.len() {
                    assert(all[i] == rest[i - here.len()]);
                }
            }
        }
    }
}

/// Some chunk's window `[start, end)` holds position `i`.
pub open spec fn window_holds(v: Seq<ChunkSpec>, i: int) -> bool {
    exists|k: int| 0 <= k < v.len() && #[trigger] v[k].start <= i && i < v[k].end
}

proof fn lemma_fixed_cover_from(t: Seq<char>, start: int, cs: int, step: int, idx: int)
    requires
        0 <= start,
        1 <= step <= cs,
    ensures
        forall|i: int| start <= i < t.len() && !is_ws(#[trigger] t[i]) ==> window_holds(fixed_windows(t, start, cs, step, idx), i),
    decreases if start < t.len() { t.len() - start } else { 0 },
{
    if start < t.len() {
        let end = if start + cs < t.len() { start + cs } else { t.len() as int };
        let piece = t.subrange(start, end);
        let tr = trim(piece);
        let here = if tr.len() > 0 {
            seq![ChunkSpec { text: tr, start, end, index: idx, meta: MetaSpec::Empty }]
        } else {
            Seq::<ChunkSpec>::empty()
        };
        let all = fixed_windows(t, start, cs, step, idx);
        lemma_trim_empty(piece);
        if end < t.len() {
            lemma_fixed_cover_from(t, start + step, cs, step, idx + here.len());
        }
        let rest = fixed_windows(t, start + step, cs, step, idx + here.len());
        assert forall|i: int| start <= i < t.len() && !is_ws(#[trigger] t[i]) implies window_holds(all, i) by {
            if end >= t.len() {
                assert(all == here);
            } else {
                assert(all == here + rest);
            }
            if i < end {
                assert(piece[i - start] == t[i]);
                assert(tr.len() > 0);
                assert(all[0] == here[0]);
                assert(all[0].start <= i && i < all[0].end);
            } else {
                assert(window_holds(rest, i));
                let k = choose|k: int| 0 <= k < rest.len() && #[trigger] rest[k].start <= i && i < rest[k].end;
                assert(all[here.len() + k] == rest[k]);
                assert(all[here.len() + k].start <= i && i < all[here.len() + k].end);
            }
        }
    }
}

/// Law: the fixed-size windows leave no character of the text out: every
/// character that is not whitespace lies in the window `[start, end)` of
/// some chunk (whose text is that window trimmed), however the text's length
/// falls against the window and the step.
pub proof fn lemma_fixed_windows_cover(t: Seq<char>, cs: int, step: int)
    requires
        1 <= step <= cs,
    ensures
        forall|i: int| 0 <= i < t.len() && !is_ws(#[trigger] t[i]) ==> window_holds(fixed_windows(t, 0, cs, step, 0), i),
        windows_ok(fixed_windows(t, 0, cs, step, 0), t, cs),
{
    lemma_fixed_cover_from(t, 0, cs, step, 0);
    lemma_fixed_windows(t, 0, cs, step, 0);
}

/// The chunks of a fixed-size split with window `chunk_size` and advance
/// `step` (`fixed_windows` from the start).
pub fn fixed_size_chunks(text: &[char], chunk_size: usize, step: usize) -> (r: Vec<RawChunk>)
    requires
        1 <= step <= chunk_size,
    ensures
        raw_view(r@) == fixed_windows(text@, 0, chunk_size as int, step as int, 0),
{
    let ghost t = text@;
    let total = text.len();
    let mut chunks: Vec<RawChunk> = Vec::new();
    if total == 0 {
        assert(raw_view(chunks@) =~= Seq::<ChunkSpec>::empty());
        return chunks;
    }
    let mut start: usize = 0;
    proof {
        assert(raw_view(chunks@) + fixed_windows(t, 0, chunk_size as int, step as int, 0) =~= fixed_windows(
            t,
            0,
            chunk_size as int,
            step as int,
            0,
        ));
    }
    loop
        invariant_except_break
            raw_view(chunks@) + fixed_windows(t, start as int, chunk_size as int, step as int, chunks@.len() as int)
                == fixed_windows(t, 0, chunk_size as int, step as int, 0),
        invariant
            t == text@,
            total == t.len(),
            1 <= step <= chunk_size,
            start < total,
        ensures
            raw_view(chunks@) == fixed_windows(t, 0, chunk_size as int, step as int, 0),
        decreases total - start,
    {
        let end = if chunk_size >= total - start {
            total
        } else {
            start + chunk_size
        };
        let tr = trimmed_slice(text, start, end);
        let ghost before = raw_view(chunks@);
        let ghost idx = chunks@.len() as int;
        if tr.len() > 0 {
            let c = RawChunk { text: tr, start, end, index: chunks.len(), metadata: ChunkMetadata::Empty };
            proof {
                lemma_raw_view_push(chunks@, c);
            }
            chunks.push(c);
        }
        proof {
            let here = if trim(t.subrange(start as int, end as int)).len() > 0 {
                seq![ChunkSpec { text: trim(t.subrange(start as int, end as int)), start: start as int, end: end as int, index: idx, meta: MetaSpec::Empty }]
            } else {
                Seq::<ChunkSpec>::empty()
            };
            assert(raw_view(chunks@) =~= before + here);
        }
        if end >= total {
            proof {
                assert(raw_view(chunks@) + Seq::<ChunkSpec>::empty() =~= raw_view(chunks@));
            }
            break;
        }
        start = start + step;
        proof {
            assert(before + fixed_windows(t, (start - step) as int, chunk_size as int, step as int, idx) =~= raw_view(chunks@)
                + fixed_windows(t, start as int, chunk_size as int, step as int, chunks@.len() as int));
        }
    }
    chunks
}

/// The fixed-size split of a text: window `chunk_size` (at least 64),
/// overlap at most `chunk_size - 1`, so windows advance by
/// `chunk_size - overlap` characters.
pub fn fixed_size_split(text: &str, chunk_size: usize, overlap: usize) -> (r: Vec<ChunkResult>)
    ensures
        chunks_view(r@) == fixed_windows(
            text@,
            0,
            effective_chunk_size(chunk_size) as int,
            (effective_chunk_size(chunk_size) - effective_overlap(chunk_size, overlap)) as int,
            0,
        ),
{
    let cs = if chunk_size < 64 { 64 } else { chunk_size };
    let ov = if overlap < cs - 1 { overlap } else { cs - 1 };
    let step = cs - ov;
    let chars = chars_of(text);
    let raw = fixed_size_chunks(&chars, cs, step);
    finish_chunks(raw)
}

/// The chunk size in effect: at least 64.
pub open spec fn effective_chunk_size(chunk_size: usize) -> usize {
    if chunk_size < 64 { 64 } else { chunk_size }
}

/// The overlap in effect: less than the effective chunk size.
pub open spec fn effective_overlap(chunk_size: usize, overlap: usize) -> usize {
    let cs = effective_chunk_size(chunk_size);
    if overlap < cs - 1 { overlap } else { (cs - 1) as usize }
}

} // verus!
