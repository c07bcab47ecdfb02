//! Reading the split points out of a language model's reply.
use vstd::prelude::*;
use crate::numfmt::{digits_to_value, digits_value, is_ascii_digit, is_digit};
use crate::text::{chars_of, matches_at, occurs_at, slice_to_vec, trim, trimmed};

verus! {

/// The first position at or after `i` where `p` occurs in `t`.
pub open spec fn find_from(t: Seq<char>, p: Seq<char>, i: int) -> Option<int>
    decreases t.len() + 1 - i,
{
    if i < 0 || i + p.len() > t.len() {
        None
    } else if occurs_at(t, p, i) {
        Some(i)
    } else {
        find_from(t, p, i + 1)
    }
}

/// Where `find_from` finds `p`, it occurs there, at or after `i`.
pub proof fn lemma_find_from(t: Seq<char>, p: Seq<char>, i: int)
    ensures
        find_from(t, p, i) matches Some(k) ==> (occurs_at(t, p, k) && i <= k),
        find_from(t, p, i) is None && 0 <= i ==> forall|k: int| i <= k ==> !occurs_at(t, p, k),
    decreases t.len() + 1 - i,
{
    if !(i < 0 || i + p.len() > t.len()) && !occurs_at(t, p, i) {
        lemma_find_from(t, p, i + 1);
    }
}

/// The closing tag of a reasoning block.
pub open spec fn think_close() -> Seq<char> {
    seq!['<', '/', 't', 'h', 'i', 'n', 'k', '>']
}

/// The reply with everything up to the first closing reasoning tag removed.
pub open spec fn strip_think(t: Seq<char>) -> Seq<char> {
    match find_from(t, think_close(), 0) {
        Some(pos) => t.subrange(pos + think_close().len(), t.len() as int),
        None => t,
    }
}

/// The first position of `c` in `t`.
pub open spec fn first_index(t: Seq<char>, c: char) -> Option<int> {
    if exists|i: int| 0 <= i < t.len() && t[i] == c {
        Some(choose|i: int| 0 <= i < t.len() && t[i] == c && forall|j: int| 0 <= j < i ==> t[j] != c)
    } else {
        None
    }
}

/// The last position of `c` in `t`.
pub open spec fn last_index(t: Seq<char>, c: char) -> Option<int> {
    if exists|i: int| 0 <= i < t.len() && t[i] == c {
        Some(choose|i: int| 0 <= i < t.len() && t[i] == c && forall|j: int| i < j < t.len() ==> t[j] != c)
    } else {
        None
    }
}

/// The span from the first `[` to the last `]`, when the first comes before the last.
pub open spec fn bracket_span(t: Seq<char>) -> Option<(int, int)> {
    match (first_index(t, '['), last_index(t, ']')) {
        (Some(l), Some(r)) => if l < r {
            Some((l, r))
        } else {
            None
        },
        _ => None,
    }
}

/// What `serde_json::from_str::<Vec<usize>>` gives for a text: the array's
/// numbers, or `None` where the text is not such an array.
pub uninterp spec fn json_usize_array(text: Seq<char>) -> Option<Seq<usize>>;

/// A run of digits read as a number, kept when it fits in `usize`.
pub open spec fn push_number(out: Seq<usize>, run: Seq<char>) -> Seq<usize> {
    if digits_value(run) <= usize::MAX {
        out.push(digits_value(run) as usize)
    } else {
        out
    }
}

/// The numbers read so far and the digit run in progress.
pub open spec fn scan_state(t: Seq<char>) -> (Seq<usize>, Seq<char>)
    decreases t.len(),
{
    if t.len() == 0 {
        (Seq::empty(), Seq::empty())
    } else {
        let (out, run) = scan_state(t.drop_last());
        let c = t.last();
        if is_digit(c) {
            (out, run.push(c))
        } else if run.len() > 0 {
            (push_number(out, run), Seq::empty())
        } else {
            (out, run)
        }
    }
}

/// Every maximal run of ASCII digits of `t`, read as a number, in order;
/// runs too large for `usize` are left out.
pub open spec fn scanned_numbers(t: Seq<char>) -> Seq<usize> {
    let (out, run) = scan_state(t);
    if run.len() > 0 {
        push_number(out, run)
    } else {
        out
    }
}

/// The numbers a reply names: the reply after its reasoning block, trimmed, read
/// as a JSON array; failing that, the part from its first `[` to its last `]`
/// read so; failing that, its runs of digits.
pub open spec fn split_point_candidates(raw: Seq<char>) -> Seq<usize> {
    trimmed_candidates(trim(strip_think(raw)))
}

/// The numbers a trimmed reply names (see `split_point_candidates`).
pub open spec fn trimmed_candidates(s: Seq<char>) -> Seq<usize> {
    match json_usize_array(s) {
        Some(v) => v,
        None => match bracket_span(s) {
            Some((l, r)) => match json_usize_array(s.subrange(l, r + 1)) {
                Some(v) => v,
                None => scanned_numbers(s),
            },
            None => scanned_numbers(s),
        },
    }
}

/// Each element is smaller than the next.
pub open spec fn strictly_increasing(v: Seq<usize>) -> bool {
    forall|i: int, j: int| 0 <= i < j < v.len() ==> v[i] < v[j]
}

/// `r` lists, in increasing order and once each, the numbers of `nums` that
/// lie in `1..window_len`.
pub open spec fn is_split_points(r: Seq<usize>, nums: Seq<usize>, window_len: int) -> bool {
    &&& strictly_increasing(r)
    &&& forall|k: usize| r.contains(k) <==> (nums.contains(k) && 1 <= k < window_len)
}

/// `serde_json::from_str::<Vec<usize>>` on `text`, its error dropped.
#[verifier::external_body]
fn parse_json_usizes(text: &[char]) -> (r: Option<Vec<usize>>)
    ensures
        match r {
            Some(v) => json_usize_array(text@) == Some(v@),
            None => json_usize_array(text@) is None,
        },
{
    let s: String = text.iter().collect();
    serde_json::from_str::<Vec<usize>>(&s).ok()
}

/// The first position at or after `from` where `p` occurs in `t` (`find_from`).
pub fn find_chars(t: &[char], p: &[char], from: usize) -> (r: Option<usize>)
    ensures
        match r {
            Some(i) => find_from(t@, p@, from as int) == Some(i as int) && i + p@.len() <= t@.len(),
            None => find_from(t@, p@, from as int) is None,
        },
{
    if p.len() == 0 {
        if from <= t.len() {
            assert(t@.subrange(from as int, from as int) =~= p@);
            return Some(from);
        }
        return None;
    }
    let mut i = from;
    while i <= t.len() && p.len() <= t.len() - i
        invariant
            from <= i,
            p@.len() > 0,
            find_from(t@, p@, from as int) == find_from(t@, p@, i as int),
        decreases t@.len() + 1 - i,
    {
        if matches_at(t, p, i) {
            return Some(i);
        }
        i = i + 1;
    }
    None
}
/// The reply with everything up to the first `</think>` removed (`strip_think`).
pub fn strip_think_block(raw: &[char]) -> (r: Vec<char>)
    ensures
        r@ == strip_think(raw@),
{
    let tag: Vec<char> = vec!['<', '/', 't', 'h', 'i', 'n', 'k', '>'];
    assert(tag@ =~= think_close());
    let n = raw.len();
    match find_chars(raw, tag.as_slice(), 0) {
        Some(pos) => {
            assert(pos + tag@.len() <= n);
            slice_to_vec(raw, pos + tag.len(), n)
        },
        None => {
            let r = slice_to_vec(raw, 0, raw.len());
            assert(r@ =~= raw@);
            r
        },
    }
}

/// The first position of `c` in `t` (`first_index`).
pub fn find_char(t: &[char], c: char) -> (r: Option<usize>)
    ensures
        match r {
            Some(i) => first_index(t@, c) == Some(i as int) && i < t@.len(),
            None => first_index(t@, c) is None,
        },
{
    let mut i: usize = 0;
    while i < t.len()
        invariant
            i <= t@.len(),
            forall|j: int| 0 <= j < i ==> t@[j] != c,
        decreases t.len() - i,
    {
        if t[i] == c {
            let ghost w = choose|k: int| 0 <= k < t@.len() && t@[k] == c && forall|j: int| 0 <= j < k ==> t@[j] != c;
            assert(0 <= i < t@.len() && t@[i as int] == c && forall|j: int| 0 <= j < i ==> t@[j] != c);
            proof {
                if w != i {
                    if w < i {
                        assert(t@[w] != c);
                    } else {
                        assert(t@[i as int] != c);
                    }
                }
            }
            return Some(i);
        }
        i = i + 1;
    }
    None
}

/// The last position of `c` in `t` (`last_index`).
pub fn rfind_char(t: &[char], c: char) -> (r: Option<usize>)
    ensures
        match r {
            Some(i) => last_index(t@, c) == Some(i as int) && i < t@.len(),
            None => last_index(t@, c) is None,
        },
{
    let mut i: usize = t.len();
    while i > 0
        invariant
            i <= t@.len(),
            forall|j: int| i <= j < t@.len() ==> t@[j] != c,
        decreases i,
    {
        if t[i - 1] == c {
            let k = i - 1;
            let ghost w = choose|x: int| 0 <= x < t@.len() && t@[x] == c && forall|j: int| x < j < t@.len() ==> t@[j] != c;
            assert(0 <= k < t@.len() && t@[k as int] == c && forall|j: int| k < j < t@.len() ==> t@[j] != c);
            proof {
                if w != k {
                    if w > k {
                        assert(t@[w] != c);
                    } else {
                        assert(t@[k as int] != c);
                    }
                }
            }
            return Some(k);
        }
        i = i - 1;
    }
    None
}

/// Reads a finished digit run into `out` (`push_number`).
fn push_run(out: &mut Vec<usize>, run: &Vec<char>)
    requires
        forall|i: int| 0 <= i < run@.len() ==> is_digit(#[trigger] run@[i]),
    ensures
        final(out)@ == push_number(old(out)@, run@),
{
    let limit: u64 = usize::MAX as u64;
    match digits_to_value(run, limit) {
        Some(v) => {
            out.push(v as usize);
        },
        None => {},
    }
}

/// Every maximal run of ASCII digits of `t` read as a number, in order,
/// leaving out those too large for `usize` (`scanned_numbers`).
pub fn scan_numbers(t: &[char]) -> (r: Vec<usize>)
    ensures
        r@ == scanned_numbers(t@),
{
    let mut out: Vec<usize> = Vec::new();
    let mut run: Vec<char> = Vec::new();
    let mut i: usize = 0;
    while i < t.len()
        invariant
            i <= t@.len(),
            (out@, run@) == scan_state(t@.take(i as int)),
            forall|j: int| 0 <= j < run@.len() ==> is_digit(#[trigger] run@[j]),
        decreases t.len() - i,
    {
        let c = t[i];
        proof {
            assert(t@.take(i + 1).drop_last() =~= t@.take(i as int));
            assert(t@.take(i + 1).last() == c);
        }
        if is_ascii_digit(c) {
            run.push(c);
        } else if run.len() > 0 {
            push_run(&mut out, &run);
            run = Vec::new();
        }
        i = i + 1;
    }
    proof {
        assert(t@.take(t@.len() as int) =~= t@);
    }
    if run.len() > 0 {
        push_run(&mut out, &run);
    }
    out
}

/// Adds `n` to a strictly increasing list, keeping it so.
fn insert_sorted(r: &mut Vec<usize>, n: usize)
    requires
        strictly_increasing(old(r)@),
    ensures
        strictly_increasing(final(r)@),
        forall|k: usize| final(r)@.contains(k) <==> (old(r)@.contains(k) || k == n),
{
    let ghost before = r@;
    let mut p: usize = 0;
    while p < r.len() && r[p] < n
        invariant
            p <= r@.len(),
            r@ == before,
            forall|j: int| 0 <= j < p ==> r@[j] < n,
        decreases r.len() - p,
    {
        p = p + 1;
    }
    if p < r.len() && r[p] == n {
        assert forall|k: usize| r@.contains(k) <==> (before.contains(k) || k == n) by {
            if k == n {
                assert(r@[p as int] == k);
            }
        }
    } else {
        assert(p < r@.len() ==> r@[p as int] > n);
        proof {
            lemma_insert_sorted(before, p as int, n);
        }
        r.insert(p, n);
        assert(r@ == before.insert(p as int, n));
        assert forall|k: usize| r@.contains(k) <==> (before.contains(k) || k == n) by {
            assert(before.insert(p as int, n).contains(k) <==> (before.contains(k) || k == n));
        }
    }
    assert(before == old(r)@);
    assert(forall|k: usize| r@.contains(k) <==> (old(r)@.contains(k) || k == n));
}

proof fn lemma_insert_sorted(before: Seq<usize>, p: int, n: usize)
    requires
        strictly_increasing(before),
        0 <= p <= before.len(),
        forall|j: int| 0 <= j < p ==> before[j] < n,
        p < before.len() ==> before[p] > n,
    ensures
        strictly_increasing(before.insert(p, n)),
        forall|k: usize| before.insert(p, n).contains(k) <==> (before.contains(k) || k == n),
{
    lemma_insert_order(before, p, n);
    lemma_insert_contains(before, p, n);
}

proof fn lemma_insert_order(before: Seq<usize>, p: int, n: usize)
    requires
        strictly_increasing(before),
        0 <= p <= before.len(),
        forall|j: int| 0 <= j < p ==> before[j] < n,
        p < before.len() ==> before[p] > n,
    ensures
        strictly_increasing(before.insert(p, n)),
{
    before.insert_ensures(p, n);
    let after = before.insert(p, n);
    assert forall|a: int, b: int| 0 <= a < b < after.len() implies after[a] < after[b] by {
        if b < p {
            assert(after[a] == before[a]);
            assert(after[b] == before[b]);
        } else if b == p {
            assert(after[a] == before[a]);
        } else {
            assert(after[b] == before[b - 1]);
            if a < p {
                assert(after[a] == before[a]);
                assert(before[p] <= before[b - 1]);
            } else if a > p {
                assert(after[a] == before[a - 1]);
            } else {
                assert(before[p] <= before[b - 1]);
            }
        }
    }
}

proof fn lemma_insert_contains(before: Seq<usize>, p: int, n: usize)
    requires
        0 <= p <= before.len(),
    ensures
        forall|k: usize| before.insert(p, n).contains(k) <==> (before.contains(k) || k == n),
{
    before.insert_ensures(p, n);
    let after = before.insert(p, n);
    assert forall|k: usize| after.contains(k) <==> (before.contains(k) || k == n) by {
        if after.contains(k) {
            let w = choose|w: int| 0 <= w < after.len() && after[w] == k;
            if w < p {
                assert(before[w] == k);
            } else if w > p {
                assert(before[w - 1] == k);
            }
        }
        if before.contains(k) {
            let v = choose|v: int| 0 <= v < before.len() && before[v] == k;
            if v < p {
                assert(after[v] == k);
            } else {
                assert(after[v + 1] == k);
            }
        }
        if k == n {
            assert(after[p] == k);
        }
    }
}

proof fn lemma_take_push_contains(s: Seq<usize>, i: int)
    requires
        0 <= i < s.len(),
    ensures
        forall|k: usize| s.take(i + 1).contains(k) <==> (s.take(i).contains(k) || k == s[i]),
{
    let t0 = s.take(i);
    let t1 = s.take(i + 1);
    assert forall|k: usize| t1.contains(k) <==> (t0.contains(k) || k == s[i]) by {
        if t1.contains(k) {
            let w = choose|w: int| 0 <= w < t1.len() && t1[w] == k;
            if w < i {
                assert(t0[w] == k);
            }
        }
        if t0.contains(k) {
            let w = choose|w: int| 0 <= w < t0.len() && t0[w] == k;
            assert(t1[w] == k);
        }
        if k == s[i] {
            assert(t1[i] == k);
        }
    }
}

/// The numbers of `nums` that lie in `1..window_len`, in increasing order,
/// each once (`is_split_points`).
pub fn normalize_split_points(nums: &[usize], window_len: usize) -> (r: Vec<usize>)
    ensures
        is_split_points(r@, nums@, window_len as int),
{
    let mut r: Vec<usize> = Vec::new();
    let mut i: usize = 0;
    while i < nums.len()
        invariant
            i <= nums@.len(),
            strictly_increasing(r@),
            forall|k: usize| r@.contains(k) <==> (nums@.take(i as int).contains(k) && 1 <= k < window_len),
        decreases nums.len() - i,
    {
        let n = nums[i];
        proof {
            lemma_take_push_contains(nums@, i as int);
        }
        let ghost before = r@;
        if n >= 1 && n < window_len {
            insert_sorted(&mut r, n);
        }
        assert forall|k: usize| r@.contains(k) <==> (nums@.take(i + 1).contains(k) && 1 <= k < window_len) by {
            assert(nums@.take(i + 1).contains(k) <==> (nums@.take(i as int).contains(k) || k == n));
            if n >= 1 && n < window_len {
                assert(r@.contains(k) <==> (before.contains(k) || k == n));
            }
        }
        i = i + 1;
    }
    assert(nums@.take(nums@.len() as int) =~= nums@);
    r
}

/// The numbers a trimmed reply names (`trimmed_candidates`).
fn reply_numbers(s: &[char]) -> (r: Vec<usize>)
    ensures
        r@ == trimmed_candidates(s@),
{
    match parse_json_usizes(s) {
        Some(v) => v,
        None => {
            let open = find_char(s, '[');
            let close = rfind_char(s, ']');
            match open {
                Some(l) => match close {
                    Some(r) => {
                        let len = s.len();
                        if l < r {
                            assert(r < len);
                            let inner = slice_to_vec(s, l, r + 1);
                            match parse_json_usizes(&inner) {
                                Some(v) => v,
                                None => scan_numbers(s),
                            }
                        } else {
                            scan_numbers(s)
                        }
                    },
                    None => scan_numbers(s),
                },
                None => scan_numbers(s),
            }
        },
    }
}

/// The split points a model's reply names (1-based sentence numbers of the
/// window, a cut after each): the numbers of `split_point_candidates` that lie
/// in `1..window_len`, in increasing order, each once.
pub fn parse_split_points_chars(raw: &[char], window_len: usize) -> (r: Vec<usize>)
    ensures
        is_split_points(r@, split_point_candidates(raw@), window_len as int),
{
    let stripped = strip_think_block(raw);
    let s = trimmed(&stripped);
    let nums = reply_numbers(&s);
    normalize_split_points(&nums, window_len)
}

/// The split points named by a model's reply to a window of `window_len`
/// sentences (`parse_split_points_chars`).
pub fn parse_split_points(raw: &str, window_len: usize) -> (r: Vec<usize>)
    ensures
        is_split_points(r@, split_point_candidates(raw@), window_len as int),
{
    let chars = chars_of(raw);
    parse_split_points_chars(&chars, window_len)
}

} // verus!
