//! Character-level text helpers shared by the chunking strategies.
//!
//! Text is handled as a sequence of Unicode scalar values (`Seq<char>`), which
//! is how the strategies count sizes and offsets ("characters", not bytes).
use vstd::prelude::*;

verus! {

/// Rust's `char::is_whitespace`: the Unicode `White_Space` property.
pub open spec fn is_ws(c: char) -> bool {
    let u = c as u32;
    ||| (0x9 <= u && u <= 0xd)
    ||| u == 0x20
    ||| u == 0x85
    ||| u == 0xa0
    ||| u == 0x1680
    ||| (0x2000 <= u && u <= 0x200a)
    ||| u == 0x2028
    ||| u == 0x2029
    ||| u == 0x202f
    ||| u == 0x205f
    ||| u == 0x3000
}

/// Executable whitespace test, equal to `is_ws`.
pub fn is_whitespace(c: char) -> (r: bool)
    ensures
        r == is_ws(c),
{
    let u = c as u32;
    (0x9 <= u && u <= 0xd) || u == 0x20 || u == 0x85 || u == 0xa0 || u == 0x1680 || (0x2000 <= u
        && u <= 0x200a) || u == 0x2028 || u == 0x2029 || u == 0x202f || u == 0x205f || u == 0x3000
}

/// The text without its leading whitespace (`str::trim_start`).
pub open spec fn trim_start(s: Seq<char>) -> Seq<char>
    decreases s.len(),
{
    if s.len() > 0 && is_ws(s[0]) {
        trim_start(s.drop_first())
    } else {
        s
    }
}

/// The text without its trailing whitespace (`str::trim_end`).
pub open spec fn trim_end(s: Seq<char>) -> Seq<char>
    decreases s.len(),
{
    if s.len() > 0 && is_ws(s.last()) {
        trim_end(s.drop_last())
    } else {
        s
    }
}

/// The text without leading and trailing whitespace (`str::trim`).
pub open spec fn trim(s: Seq<char>) -> Seq<char> {
    trim_end(trim_start(s))
}

/// Number of leading whitespace characters.
pub open spec fn lead_ws(s: Seq<char>) -> nat
    decreases s.len(),
{
    if s.len() > 0 && is_ws(s[0]) {
        1 + lead_ws(s.drop_first())
    } else {
        0
    }
}

/// Number of trailing whitespace characters.
pub open spec fn trail_ws(s: Seq<char>) -> nat
    decreases s.len(),
{
    if s.len() > 0 && is_ws(s.last()) {
        1 + trail_ws(s.drop_last())
    } else {
        0
    }
}

pub proof fn lemma_trim_start_skip(s: Seq<char>)
    ensures
        lead_ws(s) <= s.len(),
        trim_start(s) == s.skip(lead_ws(s) as int),
        forall|j: int| 0 <= j < lead_ws(s) ==> is_ws(#[trigger] s[j]),
        lead_ws(s) < s.len() ==> !is_ws(s[lead_ws(s) as int]),
    decreases s.len(),
{
    if s.len() > 0 && is_ws(s[0]) {
        lemma_trim_start_skip(s.drop_first());
        assert(s.drop_first().skip(lead_ws(s.drop_first()) as int) =~= s.skip(lead_ws(s) as int));
        assert forall|j: int| 0 <= j < lead_ws(s) implies is_ws(#[trigger] s[j]) by {
            if j > 0 {
                assert(s[j] == s.drop_first()[j - 1]);
            }
        }
    } else {
        assert(s.skip(0) =~= s);
    }
}

pub proof fn lemma_trim_end_take(s: Seq<char>)
    ensures
        trail_ws(s) <= s.len(),
        trim_end(s) == s.take(s.len() - trail_ws(s)),
        forall|j: int| s.len() - trail_ws(s) <= j < s.len() ==> is_ws(#[trigger] s[j]),
        trail_ws(s) < s.len() ==> !is_ws(s[s.len() - trail_ws(s) - 1]),
    decreases s.len(),
{
    if s.len() > 0 && is_ws(s.last()) {
        lemma_trim_end_take(s.drop_last());
        assert(s.drop_last().take(s.drop_last().len() - trail_ws(s.drop_last())) =~= s.take(
            s.len() - trail_ws(s),
        ));
        assert forall|j: int| s.len() - trail_ws(s) <= j < s.len() implies is_ws(#[trigger] s[j]) by {
            if j < s.len() - 1 {
                assert(s[j] == s.drop_last()[j]);
            }
        }
    } else {
        assert(s.take(s.len() as int) =~= s);
    }
}

/// The first index at or after `i` that holds no whitespace.
pub fn first_non_ws(s: &[char], lo: usize, hi: usize) -> (r: usize)
    requires
        lo <= hi <= s@.len(),
    ensures
        lo <= r <= hi,
        r == lo + lead_ws(s@.subrange(lo as int, hi as int)),
{
    let ghost t = s@.subrange(lo as int, hi as int);
    proof {
        lemma_trim_start_skip(t);
    }
    let mut i = lo;
    while i < hi && is_whitespace(s[i])
        invariant
            lo <= i <= hi <= s@.len(),
            t == s@.subrange(lo as int, hi as int),
            i - lo <= lead_ws(t),
            lead_ws(t) <= t.len(),
            lead_ws(t) < t.len() ==> !is_ws(t[lead_ws(t) as int]),
        decreases hi - i,
    {
        proof {
            if i - lo == lead_ws(t) {
                assert(t[i - lo] == s@[i as int]);
            }
        }
        i = i + 1;
    }
    proof {
        if i < hi && i - lo < lead_ws(t) {
            assert(t[i - lo] == s@[i as int]);
        }
    }
    i
}

/// One past the last index before `hi` (and at or after `lo`) that holds no whitespace.
pub fn last_non_ws_end(s: &[char], lo: usize, hi: usize) -> (r: usize)
    requires
        lo <= hi <= s@.len(),
    ensures
        lo <= r <= hi,
        r == hi - trail_ws(s@.subrange(lo as int, hi as int)),
{
    let ghost t = s@.subrange(lo as int, hi as int);
    proof {
        lemma_trim_end_take(t);
    }
    let mut j = hi;
    while j > lo && is_whitespace(s[j - 1])
        invariant
            lo <= j <= hi <= s@.len(),
            t == s@.subrange(lo as int, hi as int),
            hi - j <= trail_ws(t),
            trail_ws(t) <= t.len(),
            trail_ws(t) < t.len() ==> !is_ws(t[t.len() - trail_ws(t) - 1]),
        decreases j - lo,
    {
        proof {
            if hi - j == trail_ws(t) {
                assert(t[j - 1 - lo] == s@[j - 1]);
            }
        }
        j = j - 1;
    }
    proof {
        if j > lo && hi - j < trail_ws(t) {
            assert(t[j - 1 - lo] == s@[j - 1]);
        }
    }
    j
}

pub proof fn lemma_trim_bounds(s: Seq<char>)
    ensures
        trim(s) == s.subrange(
            lead_ws(s) as int,
            lead_ws(s) + (s.len() - lead_ws(s)) - trail_ws(s.skip(lead_ws(s) as int)),
        ),
        trim(s).len() <= s.len(),
{
    lemma_trim_start_skip(s);
    let u = s.skip(lead_ws(s) as int);
    lemma_trim_end_take(u);
    assert(u.take(u.len() - trail_ws(u)) =~= s.subrange(
        lead_ws(s) as int,
        lead_ws(s) + (s.len() - lead_ws(s)) - trail_ws(u),
    ));
}

/// A text trims to nothing exactly when all of it is whitespace.
pub proof fn lemma_trim_empty(s: Seq<char>)
    ensures
        trim(s).len() == 0 <==> (forall|i: int| 0 <= i < s.len() ==> is_ws(#[trigger] s[i])),
{
    lemma_trim_start_skip(s);
    let lw = lead_ws(s) as int;
    let u = trim_start(s);
    lemma_trim_end_take(u);
    if trim(s).len() == 0 {
        assert(u.len() == trail_ws(u));
        assert forall|i: int| 0 <= i < s.len() implies is_ws(#[trigger] s[i]) by {
            if i >= lw {
                assert(s[i] == u[i - lw]);
            }
        }
    }
    if forall|i: int| 0 <= i < s.len() ==> is_ws(#[trigger] s[i]) {
        if lw < s.len() {
            assert(is_ws(s[lw]));
        }
        assert(u.len() == 0);
    }
}

/// Trimming a trimmed text changes nothing.
pub proof fn lemma_trim_idempotent(x: Seq<char>)
    ensures
        trim(trim(x)) == trim(x),
{
    lemma_trim_start_skip(x);
    let y = trim_start(x);
    lemma_trim_end_take(y);
    let t = trim_end(y);
    if t.len() > 0 {
        assert(t[0] == y[0]);
        assert(y[0] == x[lead_ws(x) as int]);
        assert(!is_ws(t[0]));
        assert(trim_start(t) == t);
        assert(t.last() == y[y.len() - trail_ws(y) - 1]);
        assert(!is_ws(t.last()));
        assert(trim_end(t) == t);
    } else {
        assert(trim_start(t) == t);
        assert(trim_end(t) == t);
    }
}

/// The bounds `(a, b)` with `s[a..b]` equal to the trimmed text `s[lo..hi]`.
pub fn trim_bounds(s: &[char], lo: usize, hi: usize) -> (r: (usize, usize))
    requires
        lo <= hi <= s@.len(),
    ensures
        lo <= r.0 <= r.1 <= hi,
        s@.subrange(r.0 as int, r.1 as int) == trim(s@.subrange(lo as int, hi as int)),
{
    let ghost t = s@.subrange(lo as int, hi as int);
    let a = first_non_ws(s, lo, hi);
    let b = last_non_ws_end(s, a, hi);
    proof {
        lemma_trim_bounds(t);
        assert(t.skip(lead_ws(t) as int) =~= s@.subrange(a as int, hi as int));
        assert(s@.subrange(a as int, b as int) =~= t.subrange(
            lead_ws(t) as int,
            lead_ws(t) + (t.len() - lead_ws(t)) - trail_ws(t.skip(lead_ws(t) as int)),
        ));
    }
    (a, b)
}

/// Copy of `s[lo..hi]`.
pub fn slice_to_vec(s: &[char], lo: usize, hi: usize) -> (r: Vec<char>)
    requires
        lo <= hi <= s@.len(),
    ensures
        r@ == s@.subrange(lo as int, hi as int),
{
    let mut r: Vec<char> = Vec::new();
    let mut i = lo;
    while i < hi
        invariant
            lo <= i <= hi <= s@.len(),
            r@ == s@.subrange(lo as int, i as int),
        decreases hi - i,
    {
        r.push(s[i]);
        i = i + 1;
        assert(r@ =~= s@.subrange(lo as int, i as int));
    }
    r
}

/// The trimmed copy of `s[lo..hi]`.
pub fn trimmed_slice(s: &[char], lo: usize, hi: usize) -> (r: Vec<char>)
    requires
        lo <= hi <= s@.len(),
    ensures
        r@ == trim(s@.subrange(lo as int, hi as int)),
{
    let (a, b) = trim_bounds(s, lo, hi);
    slice_to_vec(s, a, b)
}

/// The trimmed copy of a whole text.
pub fn trimmed(s: &[char]) -> (r: Vec<char>)
    ensures
        r@ == trim(s@),
{
    proof {
        assert(s@.subrange(0, s@.len() as int) =~= s@);
    }
    trimmed_slice(s, 0, s.len())
}

/// The copy of a text without its trailing whitespace.
pub fn trimmed_end(s: &[char]) -> (r: Vec<char>)
    ensures
        r@ == trim_end(s@),
{
    proof {
        assert(s@.subrange(0, s@.len() as int) =~= s@);
        lemma_trim_end_take(s@);
    }
    let e = last_non_ws_end(s, 0, s.len());
    let r = slice_to_vec(s, 0, e);
    assert(r@ =~= s@.take(s@.len() - trail_ws(s@)));
    r
}

/// Appends `b` to `a`.
pub fn append_chars(a: &mut Vec<char>, b: &[char])
    ensures
        final(a)@ == old(a)@ + b@,
{
    let mut i: usize = 0;
    let ghost a0 = a@;
    while i < b.len()
        invariant
            i <= b@.len(),
            a@ == a0 + b@.subrange(0, i as int),
        decreases b.len() - i,
    {
        a.push(b[i]);
        i = i + 1;
        assert(a@ =~= a0 + b@.subrange(0, i as int));
    }
    assert(b@.subrange(0, b@.len() as int) =~= b@);
}

/// The characters of a string slice.
pub fn chars_of(s: &str) -> (r: Vec<char>)
    ensures
        r@ == s@,
{
    let mut r: Vec<char> = Vec::new();
    for c in it: s.chars()
        invariant
            r@ == it.seq().take(it.index() as int),
            it.seq() == s@,
    {
        r.push(c);
    }
    r
}

/// A string holding the characters `v`.
#[verifier::external_body]
pub(crate) fn string_of(v: &[char]) -> (r: String)
    ensures
        r@ == v@,
{
    v.iter().collect()
}

/// Whether the texts are equal.
pub fn chars_eq(a: &[char], b: &[char]) -> (r: bool)
    ensures
        r == (a@ == b@),
{
    if a.len() != b.len() {
        return false;
    }
    let mut i: usize = 0;
    while i < a.len()
        invariant
            a@.len() == b@.len(),
            i <= a@.len(),
            forall|j: int| 0 <= j < i ==> a@[j] == b@[j],
        decreases a.len() - i,
    {
        if a[i] != b[i] {
            return false;
        }
        i = i + 1;
    }
    assert(a@ =~= b@);
    true
}

/// Whether `t` starts with `p` at position `at`.
pub open spec fn occurs_at(t: Seq<char>, p: Seq<char>, at: int) -> bool {
    0 <= at && at + p.len() <= t.len() && t.subrange(at, at + p.len()) == p
}

/// Whether `p` occurs in `t` starting at `at`.
pub fn matches_at(t: &[char], p: &[char], at: usize) -> (r: bool)
    ensures
        r == occurs_at(t@, p@, at as int),
{
    if at > t.len() || p.len() > t.len() - at {
        return false;
    }
    let mut i: usize = 0;
    while i < p.len()
        invariant
            at + p@.len() <= t@.len(),
            i <= p@.len(),
            forall|j: int| 0 <= j < i ==> t@[at + j] == p@[j],
        decreases p.len() - i,
    {
        assert(at + i < t.len());
        if t[at + i] != p[i] {
            assert(t@.subrange(at as int, at + p@.len())[i as int] == t@[at + i]);
            return false;
        }
        i = i + 1;
    }
    assert(t@.subrange(at as int, at + p@.len()) =~= p@);
    true
}

/// Whether two texts are equal.
pub fn str_eq(a: &str, b: &str) -> (r: bool)
    ensures
        r == (a@ == b@),
{
    let x = chars_of(a);
    let y = chars_of(b);
    chars_eq(&x, &y)
}

/// An owned copy of a text.
pub fn owned(s: &str) -> (r: String)
    ensures
        r@ == s@,
{
    let v = chars_of(s);
    string_of(&v)
}

/// A copy of a string.
pub fn copy_string(s: &String) -> (r: String)
    ensures
        r@ == s@,
{
    owned(s.as_str())
}

/// The Unicode lower-case mapping of a text, as computed by `str::to_lowercase`.
pub uninterp spec fn lowercase(s: Seq<char>) -> Seq<char>;

/// A text made of ASCII characters only.
pub open spec fn is_ascii_text(s: Seq<char>) -> bool {
    forall|i: int| 0 <= i < s.len() ==> (#[trigger] s[i] as u32) < 128
}

/// The ASCII lower case of a character: `A`–`Z` become `a`–`z`, any other
/// character stays.
pub open spec fn ascii_lower(c: char) -> char {
    if 'A' <= c && c <= 'Z' {
        ((c as u32) + 32) as char
    } else {
        c
    }
}

/// The ASCII lower case of a text, character by character.
pub open spec fn ascii_lowercase(s: Seq<char>) -> Seq<char> {
    s.map_values(|c: char| ascii_lower(c))
}

/// Lower-cases a text with `str::to_lowercase`; the result is the name
/// `lowercase` applied to the text. Of the full Unicode mapping only the
/// ASCII part is restated: a text of ASCII characters has `A`–`Z` turned
/// into `a`–`z` and keeps every other character.
#[verifier::external_body]
pub(crate) fn to_lowercase_chars(s: &[char]) -> (r: Vec<char>)
    ensures
        r@ == lowercase(s@),
        is_ascii_text(s@) ==> r@ == ascii_lowercase(s@),
{
    let st: String = s.iter().collect();
    st.to_lowercase().chars().collect()
}

} // verus!
