//! The newline-delimited JSON streams of the model service: how received
//! text is cut into lines, and how a streamed generation is put together.
use vstd::prelude::*;
use crate::ollama::client::GenerateResponse;
use crate::text::{append_chars, chars_of, lead_ws, lemma_trim_bounds, lemma_trim_end_take, lemma_trim_idempotent, lemma_trim_start_skip, owned, slice_to_vec, string_of, trim, trimmed_slice};

verus! {

/// Cuts `s` at its newlines, `cur` being the part of a line received
/// before `s`: the trimmed lines that a newline ends, blank ones left out,
/// and the part of a line after the last newline.
pub open spec fn frame(s: Seq<char>, cur: Seq<char>) -> (Seq<Seq<char>>, Seq<char>)
    decreases s.len(),
{
    if s.len() == 0 {
        (Seq::empty(), cur)
    } else if s[0] == '\n' {
        let rest = frame(s.drop_first(), Seq::empty());
        let line = trim(cur);
        (if line.len() == 0 { rest.0 } else { seq![line] + rest.0 }, rest.1)
    } else {
        frame(s.drop_first(), cur.push(s[0]))
    }
}

/// The views of a list of strings.
pub open spec fn lines_view(v: Seq<String>) -> Seq<Seq<char>> {
    v.map_values(|s: String| s@)
}

/// Law: cutting a stream into lines does not depend on how it arrives.
/// Framing `a` and then `b`, carrying the unfinished line over, gives the
/// lines and the remainder of framing `a + b` at once.
pub proof fn lemma_frame_concat(a: Seq<char>, b: Seq<char>, cur: Seq<char>)
    ensures
        frame(a + b, cur) == ({
            let first = frame(a, cur);
            let second = frame(b, first.1);
            (first.0 + second.0, second.1)
        }),
    decreases a.len(),
{
    if a.len() == 0 {
        assert(a + b =~= b);
        assert(frame(a, cur).0 + frame(b, cur).0 =~= frame(b, cur).0);
    } else {
        assert((a + b).drop_first() =~= a.drop_first() + b);
        assert((a + b)[0] == a[0]);
        if a[0] == '\n' {
            lemma_frame_concat(a.drop_first(), b, Seq::empty());
            let rest = frame(a.drop_first(), Seq::empty());
            let second = frame(b, rest.1);
            let line = trim(cur);
            if line.len() != 0 {
                assert(seq![line] + (rest.0 + second.0) =~= (seq![line] + rest.0) + second.0);
            }
        } else {
            lemma_frame_concat(a.drop_first(), b, cur.push(a[0]));
        }
    }
}

/// `s` holds no newline.
pub open spec fn no_newline(s: Seq<char>) -> bool {
    forall|k: int| 0 <= k < s.len() ==> #[trigger] s[k] != '\n'
}

/// Law: the lines cut from a stream are not blank, are trimmed and hold no
/// newline; nor does the unfinished line.
pub proof fn lemma_frame_lines(s: Seq<char>, cur: Seq<char>)
    requires
        no_newline(cur),
    ensures
        forall|i: int|
            0 <= i < frame(s, cur).0.len() ==> {
                let l = #[trigger] frame(s, cur).0[i];
                l.len() > 0 && trim(l) == l && no_newline(l)
            },
        no_newline(frame(s, cur).1),
    decreases s.len(),
{
    if s.len() > 0 {
        if s[0] == '\n' {
            lemma_frame_lines(s.drop_first(), Seq::empty());
            let rest = frame(s.drop_first(), Seq::empty());
            let line = trim(cur);
            lemma_trim_bounds(cur);
            lemma_trim_idempotent(cur);
            lemma_trim_start_skip(cur);
            lemma_trim_end_take(cur.skip(lead_ws(cur) as int));
            let a = lead_ws(cur) as int;
            assert forall|k: int| 0 <= k < line.len() implies #[trigger] line[k] != '\n' by {
                assert(line[k] == cur[a + k]);
            }
            if line.len() != 0 {
                let all = seq![line] + rest.0;
                assert forall|i: int| 0 <= i < all.len() implies {
                    let l = #[trigger] all[i];
                    l.len() > 0 && trim(l) == l && no_newline(l)
                } by {
                    if i > 0 {
                        assert(all[i] == rest.0[i - 1]);
                    }
                }
            }
        } else {
            let next = cur.push(s[0]);
            assert forall|k: int| 0 <= k < next.len() implies #[trigger] next[k] != '\n' by {
                if k < cur.len() {
                    assert(next[k] == cur[k]);
                }
            }
            lemma_frame_lines(s.drop_first(), next);
        }
    }
}

/// Takes the text that arrived into the buffer `buf`, which holds the
/// unfinished line received so far: returns the trimmed non-blank lines
/// that are now complete, and leaves in `buf` what follows the last
/// newline.
pub fn take_lines(buf: &mut String, incoming: &str) -> (r: Vec<String>)
    ensures
        lines_view(r@) == frame(old(buf)@ + incoming@, Seq::empty()).0,
        final(buf)@ == frame(old(buf)@ + incoming@, Seq::empty()).1,
{
    let mut c = chars_of(buf.as_str());
    let inc = chars_of(incoming);
    append_chars(&mut c, inc.as_slice());
    let ghost total = frame(c@, Seq::empty());
    let n = c.len();
    let mut out: Vec<String> = Vec::new();
    let mut pos: usize = 0;
    let mut i: usize = 0;
    proof {
        assert(c@.skip(0) =~= c@);
        assert(c@.subrange(0, 0) =~= Seq::<char>::empty());
    }
    while i < n
        invariant
            n == c@.len(),
            pos <= i <= n,
            lines_view(out@) + frame(c@.skip(i as int), c@.subrange(pos as int, i as int)).0 == total.0,
            frame(c@.skip(i as int), c@.subrange(pos as int, i as int)).1 == total.1,
        decreases n - i,
    {
        let ghost cur = c@.subrange(pos as int, i as int);
        proof {
            assert(c@.skip(i as int).drop_first() =~= c@.skip(i + 1));
            assert(c@.skip(i as int)[0] == c@[i as int]);
        }
        if c[i] == '\n' {
            let line = trimmed_slice(c.as_slice(), pos, i);
            let ghost rest = frame(c@.skip(i + 1), Seq::empty());
            let ghost before = lines_view(out@);
            if line.len() > 0 {
                let s = string_of(line.as_slice());
                out.push(s);
                proof {
                    assert(lines_view(out@) =~= before.push(line@));
                    assert(before.push(line@) + rest.0 =~= before + (seq![line@] + rest.0));
                }
            }
            pos = i + 1;
            i = i + 1;
            proof {
                assert(c@.subrange(pos as int, i as int) =~= Seq::<char>::empty());
            }
        } else {
            i = i + 1;
            proof {
                assert(cur.push(c@[i - 1]) =~= c@.subrange(pos as int, i as int));
            }
        }
    }
    proof {
        assert(c@.skip(n as int) =~= Seq::<char>::empty());
        assert(lines_view(out@) + Seq::<Seq<char>>::empty() =~= lines_view(out@));
    }
    let rest = slice_to_vec(c.as_slice(), pos, n);
    *buf = string_of(rest.as_slice());
    assert(c@ =~= old(buf)@ + incoming@);
    out
}

/// What a streamed generation has gathered: the text of its pieces so far
/// and the piece that said it was done.
pub struct GenerateStream {
    pub full_response: String,
    pub final_chunk: Option<GenerateResponse>,
}

impl GenerateStream {
    /// A generation that has received nothing.
    pub fn new() -> (r: GenerateStream)
        ensures
            r.full_response@ == Seq::<char>::empty(),
            r.final_chunk is None,
    {
        GenerateStream { full_response: String::new(), final_chunk: None }
    }

    /// Takes a piece of the answer: its text, when it has any, is added to
    /// what was gathered and is to be handed on (`true`).
    pub fn take_text(&mut self, chunk: &GenerateResponse) -> (emit: bool)
        ensures
            emit == (chunk.response@.len() > 0),
            final(self).full_response@ == old(self).full_response@ + chunk.response@,
            final(self).final_chunk == old(self).final_chunk,
    {
        if chunk.response.as_str().unicode_len() == 0 {
            assert(old(self).full_response@ + chunk.response@ =~= old(self).full_response@);
            false
        } else {
            let mut c = chars_of(self.full_response.as_str());
            let add = chars_of(chunk.response.as_str());
            append_chars(&mut c, add.as_slice());
            self.full_response = string_of(c.as_slice());
            true
        }
    }

    /// Takes note of a piece after its text was handed on: the piece that
    /// says the answer is done is kept.
    pub fn note_done(&mut self, chunk: GenerateResponse)
        ensures
            final(self).full_response@ == old(self).full_response@,
            chunk.done ==> final(self).final_chunk == Some(chunk),
            !chunk.done ==> final(self).final_chunk == old(self).final_chunk,
    {
        if chunk.done {
            self.final_chunk = Some(chunk);
        }
    }

    /// The answer when the receiver asked to stop at `chunk`: the text
    /// gathered so far, not done, the rest taken from `chunk`.
    pub fn stopped(self, chunk: GenerateResponse) -> (r: GenerateResponse)
        ensures
            r == (GenerateResponse { response: self.full_response, done: false, ..chunk }),
    {
        GenerateResponse { response: self.full_response, done: false, ..chunk }
    }

    /// The answer when the stream ended: the piece that said it was done,
    /// or else an empty finished answer of `model`; where its text is
    /// empty, the text gathered from all pieces.
    pub fn finish(self, model: &str) -> (r: GenerateResponse)
        ensures
            match self.final_chunk {
                Some(f) => {
                    &&& r.model == f.model
                    &&& r.done == f.done
                    &&& r.context == f.context
                    &&& r.total_duration == f.total_duration
                    &&& r.load_duration == f.load_duration
                    &&& r.prompt_eval_count == f.prompt_eval_count
                    &&& r.eval_count == f.eval_count
                    &&& r.response@ == (if f.response@.len() == 0 { self.full_response@ } else { f.response@ })
                },
                None => {
                    &&& r.model@ == model@
                    &&& r.done
                    &&& r.context is None
                    &&& r.total_duration is None
                    &&& r.load_duration is None
                    &&& r.prompt_eval_count is None
                    &&& r.eval_count is None
                    &&& r.response@ == self.full_response@
                },
            },
    {
        let mut resp = match self.final_chunk {
            Some(f) => f,
            None => GenerateResponse {
                model: owned(model),
                response: String::new(),
                done: true,
                context: None,
                total_duration: None,
                load_duration: None,
                prompt_eval_count: None,
                eval_count: None,
            },
        };
        if resp.response.as_str().unicode_len() == 0 {
            resp.response = self.full_response;
        }
        resp
    }
}

} // verus!
