//! Glob patterns over the bytes of keys: `*` any run, `?` any one byte, `[...]`
//! one byte of a class (`[^...]` negated, `a-z` a range inside it), `\x` the
//! byte `x` itself. A `[` without a closing `]` stands for itself.
use vstd::prelude::*;
use vstd::utf8::encode_utf8;

verus! {

pub const BACKSLASH: u8 = 92;
pub const OPEN: u8 = 91;
pub const CLOSE: u8 = 93;
pub const CARET: u8 = 94;
pub const DASH: u8 = 45;
pub const ANY_ONE: u8 = 63;
pub const ANY_RUN: u8 = 42;

/// Where the class whose members start at `k` is closed, or `p.len()` when it
/// is not; an escaped `]` does not close it.
pub open spec fn class_close(p: Seq<u8>, k: int) -> int
    decreases p.len() - k,
{
    if k < 0 || k >= p.len() {
        p.len() as int
    } else if p[k] == BACKSLASH && k + 1 < p.len() {
        class_close(p, k + 2)
    } else if p[k] == CLOSE {
        k
    } else {
        class_close(p, k + 1)
    }
}

/// Whether the members of a class, from `k` up to `close`, admit `c`.
pub open spec fn class_has(p: Seq<u8>, k: int, close: int, c: u8) -> bool
    decreases close - k,
{
    if k < 0 || k >= close || close > p.len() {
        false
    } else if p[k] == BACKSLASH && k + 1 < close {
        p[k + 1] == c || class_has(p, k + 2, close, c)
    } else if k + 2 < close && p[k + 1] == DASH {
        let lo = p[k];
        let hi = p[k + 2];
        (lo <= c <= hi || hi <= c <= lo) || class_has(p, k + 3, close, c)
    } else {
        p[k] == c || class_has(p, k + 1, close, c)
    }
}

/// Where the members of the class opened at `i` start.
pub open spec fn class_start(p: Seq<u8>, i: int) -> int {
    if i + 1 < p.len() && p[i + 1] == CARET {
        i + 2
    } else {
        i + 1
    }
}

/// How many pattern bytes the single-byte token at `i` takes.
pub open spec fn token_len(p: Seq<u8>, i: int) -> int {
    if p[i] == BACKSLASH && i + 1 < p.len() {
        2
    } else if p[i] == OPEN && class_close(p, class_start(p, i)) < p.len() {
        class_close(p, class_start(p, i)) - i + 1
    } else {
        1
    }
}

/// Whether the single-byte token at `i` admits `c`.
pub open spec fn token_admits(p: Seq<u8>, i: int, c: u8) -> bool {
    if p[i] == ANY_ONE {
        true
    } else if p[i] == BACKSLASH && i + 1 < p.len() {
        p[i + 1] == c
    } else if p[i] == OPEN && class_close(p, class_start(p, i)) < p.len() {
        let has = class_has(p, class_start(p, i), class_close(p, class_start(p, i)), c);
        if class_start(p, i) == i + 2 {
            !has
        } else {
            has
        }
    } else {
        p[i] == c
    }
}

/// Whether the pattern from `i` on matches the text from `j` on.
pub open spec fn glob_at(p: Seq<u8>, i: int, s: Seq<u8>, j: int) -> bool
    decreases (p.len() - i) + (s.len() - j),
    via glob_at_decreases
{
    if i < 0 || j < 0 || i > p.len() || j > s.len() {
        false
    } else if i == p.len() {
        j == s.len()
    } else if p[i] == ANY_RUN {
        glob_at(p, i + 1, s, j) || (j < s.len() && glob_at(p, i, s, j + 1))
    } else {
        j < s.len() && token_admits(p, i, s[j]) && glob_at(p, i + token_len(p, i), s, j + 1)
    }
}

/// Whether the whole of `s` matches the pattern `p`.
pub open spec fn glob_matches(p: Seq<u8>, s: Seq<u8>) -> bool {
    glob_at(p, 0, s, 0)
}

#[via_fn]
proof fn glob_at_decreases(p: Seq<u8>, i: int, s: Seq<u8>, j: int) {
    if 0 <= i < p.len() {
        lemma_class_close_bounds(p, class_start(p, i));
    }
}

proof fn lemma_class_close_bounds(p: Seq<u8>, k: int)
    requires
        0 <= k,
    ensures
        k <= class_close(p, k) <= p.len() || (k > p.len() && class_close(p, k) == p.len()),
    decreases p.len() - k,
{
    if k < p.len() {
        if p[k] == BACKSLASH && k + 1 < p.len() {
            lemma_class_close_bounds(p, k + 2);
        } else if p[k] != CLOSE {
            lemma_class_close_bounds(p, k + 1);
        }
    }
}

fn find_close(p: &[u8], k: usize) -> (r: usize)
    requires
        k <= p@.len(),
    ensures
        r == class_close(p@, k as int),
        k <= r <= p@.len(),
{
    let mut i = k;
    while i < p.len() && !(p[i] == CLOSE)
        invariant
            k <= i <= p@.len(),
            class_close(p@, k as int) == class_close(p@, i as int),
        decreases p@.len() - i,
    {
        if p[i] == BACKSLASH && i + 1 < p.len() {
            i = i + 2;
        } else {
            i = i + 1;
        }
    }
    i
}

fn class_admits(p: &[u8], k: usize, close: usize, c: u8) -> (r: bool)
    requires
        k <= close <= p@.len(),
    ensures
        r == class_has(p@, k as int, close as int, c),
{
    let mut i = k;
    while i < close
        invariant
            k <= i <= close,
            close <= p@.len(),
            class_has(p@, k as int, close as int, c) == class_has(p@, i as int, close as int, c),
        decreases close - i,
    {
        if p[i] == BACKSLASH && close - i > 1 {
            if p[i + 1] == c {
                return true;
            }
            i = i + 2;
        } else if close - i > 2 && p[i + 1] == DASH {
            let lo = p[i];
            let hi = p[i + 2];
            if (lo <= c && c <= hi) || (hi <= c && c <= lo) {
                return true;
            }
            i = i + 3;
        } else {
            if p[i] == c {
                return true;
            }
            i = i + 1;
        }
    }
    false
}

/// The length of the token at `i`, and whether it admits `c`.
fn token(p: &[u8], i: usize, c: u8) -> (r: (usize, bool))
    requires
        i < p@.len(),
    ensures
        r.0 == token_len(p@, i as int),
        r.1 == token_admits(p@, i as int, c),
        1 <= r.0 <= p@.len() - i,
{
    let n = p.len();
    if p[i] == BACKSLASH && i + 1 < n {
        return (2, p[i + 1] == c);
    }
    if p[i] == OPEN {
        let start = if i + 1 < n && p[i + 1] == CARET {
            i + 2
        } else {
            i + 1
        };
        let close = find_close(p, start);
        if close < n {
            let has = class_admits(p, start, close, c);
            let admits = if start == i + 2 {
                !has
            } else {
                has
            };
            return (close - i + 1, admits);
        }
    }
    (1, p[i] == ANY_ONE || p[i] == c)
}

/// Whether `text` matches `pattern` as a whole. Works row by row over the
/// places of the text, so its cost is bounded by the product of the lengths.
pub fn glob_match(pattern: &str, text: &str) -> (r: bool)
    ensures
        r == glob_matches(encode_utf8(pattern@), encode_utf8(text@)),
{
    let p = pattern.as_bytes();
    let s = text.as_bytes();
    let pn = p.len();
    let sn = s.len();
    // next[i] tells whether the pattern from i on matches the text from the
    // last row j on; rows go from the end of the text to its start
    let mut next: Vec<bool> = Vec::new();
    let mut j: usize = sn;
    let mut k: usize = 0;
    while k < pn
        invariant
            pn == p@.len(),
            k <= pn,
            next@.len() == k,
        decreases pn - k,
    {
        next.push(false);
        k = k + 1;
    }
    next.push(true);
    let mut i: usize = pn;
    while i > 0
        invariant
            pn == p@.len(),
            sn == s@.len(),
            i <= pn,
            next@.len() == pn + 1,
            forall|t: int| i <= t <= pn ==> next@[t] == glob_at(p@, t, s@, sn as int),
        decreases i,
    {
        i = i - 1;
        let v = if p[i] == ANY_RUN {
            next[i + 1]
        } else {
            false
        };
        next.set(i, v);
    }
    while j > 0
        invariant
            pn == p@.len(),
            sn == s@.len(),
            j <= sn,
            next@.len() == pn + 1,
            forall|t: int| 0 <= t <= pn ==> next@[t] == glob_at(p@, t, s@, j as int),
        decreases j,
    {
        j = j - 1;
        let c = s[j];
        let mut cur: Vec<bool> = next.clone();
        cur.set(pn, false);
        let mut i: usize = pn;
        while i > 0
            invariant
                pn == p@.len(),
                sn == s@.len(),
                j < sn,
                c == s@[j as int],
                i <= pn,
                next@.len() == pn + 1,
                cur@.len() == pn + 1,
                forall|t: int| 0 <= t <= pn ==> next@[t] == glob_at(p@, t, s@, j + 1),
                forall|t: int| i <= t <= pn ==> cur@[t] == glob_at(p@, t, s@, j as int),
            decreases i,
        {
            i = i - 1;
            let v = if p[i] == ANY_RUN {
                cur[i + 1] || next[i]
            } else {
                let (len, admits) = token(&p, i, c);
                admits && next[i + len]
            };
            cur.set(i, v);
        }
        next = cur;
    }
    next[0]
}

} // verus!
