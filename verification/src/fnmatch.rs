//! Shell-style wildcard matching of package and thread names: `*` matches
//! any run of characters, `?` any one character, and `[...]` one character
//! of a class (ranges `a-z`, negated by a leading `!` or `^`).
use vstd::prelude::*;

use crate::cpulist::index_of_from;
use crate::text::chars_of;

verus! {

/// Whether the class opened by `[` at `i` is negated.
pub open spec fn class_neg(p: Seq<char>, i: int) -> bool {
    i + 1 < p.len() && (p[i + 1] == '!' || p[i + 1] == '^')
}

/// The index of the first member of the class opened at `i`.
pub open spec fn class_start(p: Seq<char>, i: int) -> int {
    if class_neg(p, i) {
        i + 2
    } else {
        i + 1
    }
}

/// The index of the `]` that closes the class opened at `i` (a `]` right
/// at the start is a member), or -1 when it is not closed.
pub open spec fn class_end(p: Seq<char>, i: int) -> int {
    if class_start(p, i) < p.len() {
        index_of_from(p, ']', class_start(p, i) + 1)
    } else {
        -1
    }
}

/// Whether the members `p[q..close]` of a class admit `c`: `x-y` stands for
/// the characters from `x` to `y`, anything else for itself.
pub open spec fn class_has(p: Seq<char>, q: int, close: int, c: char) -> bool
    decreases close - q,
{
    if q < 0 || q >= close {
        false
    } else if q + 2 < close && p[q + 1] == '-' {
        (p[q] <= c <= p[q + 2]) || class_has(p, q + 3, close, c)
    } else {
        p[q] == c || class_has(p, q + 1, close, c)
    }
}

pub proof fn lemma_index_of_from_bounds(t: Seq<char>, c: char, i: int)
    ensures
        index_of_from(t, c, i) == -1 || (i <= index_of_from(t, c, i) < t.len() && t[index_of_from(
            t,
            c,
            i,
        )] == c && 0 <= i),
        forall|k: int| 0 <= i <= k < t.len() && k < index_of_from(t, c, i) ==> t[k] != c,
        index_of_from(t, c, i) == -1 ==> forall|k: int| 0 <= i <= k < t.len() ==> t[k] != c,
    decreases t.len() - i,
{
    if 0 <= i < t.len() && t[i] != c {
        lemma_index_of_from_bounds(t, c, i + 1);
    }
}

/// Whether `p[i..]` matches `s[j..]`.
pub open spec fn glob_at(p: Seq<char>, i: int, s: Seq<char>, j: int) -> bool
    decreases p.len() - i, s.len() - j,
{
    if i < 0 || j < 0 || i >= p.len() {
        j >= s.len()
    } else if p[i] == '*' {
        glob_at(p, i + 1, s, j) || (j < s.len() && glob_at(p, i, s, j + 1))
    } else if j >= s.len() {
        false
    } else if p[i] == '?' {
        glob_at(p, i + 1, s, j + 1)
    } else if p[i] == '[' && class_end(p, i) >= 0 {
        proof {
            lemma_index_of_from_bounds(p, ']', class_start(p, i) + 1);
        }
        (class_has(p, class_start(p, i), class_end(p, i), s[j]) != class_neg(p, i)) && glob_at(
            p,
            class_end(p, i) + 1,
            s,
            j + 1,
        )
    } else {
        p[i] == s[j] && glob_at(p, i + 1, s, j + 1)
    }
}

/// Whether the wildcard pattern `p` matches the whole of `s`.
pub open spec fn glob(p: Seq<char>, s: Seq<char>) -> bool {
    glob_at(p, 0, s, 0)
}

/// Whether `p` holds no wildcard character.
pub open spec fn is_literal(p: Seq<char>) -> bool {
    forall|k: int| 0 <= k < p.len() ==> p[k] != '*' && p[k] != '?' && p[k] != '['
}

fn class_matches(p: &Vec<char>, q: usize, close: usize, c: char) -> (r: bool)
    requires
        q <= close <= p@.len(),
    ensures
        r == class_has(p@, q as int, close as int, c),
    decreases close - q,
{
    if q >= close {
        return false;
    }
    if close - q > 2 && p[q + 1] == '-' {
        if p[q] <= c && c <= p[q + 2] {
            return true;
        }
        class_matches(p, q + 3, close, c)
    } else {
        if p[q] == c {
            return true;
        }
        class_matches(p, q + 1, close, c)
    }
}

/// The `]` closing a class whose members start at `b`, searching from
/// `b + 1`, or `p.len()` when none does.
fn find_close(p: &Vec<char>, from: usize) -> (k: usize)
    requires
        from <= p@.len(),
    ensures
        from <= k <= p@.len(),
        index_of_from(p@, ']', from as int) == (if k < p@.len() {
            k as int
        } else {
            -1
        }),
{
    let mut k = from;
    while k < p.len() && p[k] != ']'
        invariant
            from <= k <= p@.len(),
            index_of_from(p@, ']', from as int) == index_of_from(p@, ']', k as int),
        decreases p@.len() - k,
    {
        k = k + 1;
    }
    k
}

fn glob_match(p: &Vec<char>, i: usize, s: &Vec<char>, j: usize) -> (r: bool)
    requires
        i <= p@.len(),
        j <= s@.len(),
    ensures
        r == glob_at(p@, i as int, s@, j as int),
    decreases p@.len() - i, s@.len() - j,
{
    if i >= p.len() {
        return j >= s.len();
    }
    if p[i] == '*' {
        if glob_match(p, i + 1, s, j) {
            return true;
        }
        return j < s.len() && glob_match(p, i, s, j + 1);
    }
    if j >= s.len() {
        return false;
    }
    if p[i] == '?' {
        return glob_match(p, i + 1, s, j + 1);
    }
    if p[i] == '[' {
        let neg = i + 1 < p.len() && (p[i + 1] == '!' || p[i + 1] == '^');
        let start = if neg {
            i + 2
        } else {
            i + 1
        };
        if start < p.len() {
            let close = find_close(p, start + 1);
            if close < p.len() {
                proof {
                    lemma_index_of_from_bounds(p@, ']', start + 1);
                }
                let inside = class_matches(p, start, close, s[j]);
                if inside == neg {
                    return false;
                }
                return glob_match(p, close + 1, s, j + 1);
            }
        }
    }
    p[i] == s[j] && glob_match(p, i + 1, s, j + 1)
}

/// Whether the wildcard pattern `pattern` matches the whole of `name`.
pub fn fnmatch(pattern: &str, name: &str) -> (r: bool)
    ensures
        r == glob(pattern@, name@),
{
    let p = chars_of(pattern);
    let s = chars_of(name);
    glob_match(&p, 0, &s, 0)
}

proof fn lemma_literal_prefix(t: Seq<char>, tail: Seq<char>, rest: Seq<char>, k: int)
    requires
        is_literal(t),
        0 <= k <= t.len(),
    ensures
        glob_at(t + tail, k, t + rest, k) == glob_at(t + tail, t.len() as int, t + rest, t.len() as int),
    decreases t.len() - k,
{
    if k < t.len() {
        let p = t + tail;
        let s = t + rest;
        assert(p[k] == t[k]);
        assert(s[k] == t[k]);
        lemma_literal_prefix(t, tail, rest, k + 1);
    }
}

/// A class range `x-y` admits exactly the characters from `x` to `y`, both
/// ends included: after a literal prefix `t`, the pattern `t[x-y]` matches
/// `t` followed by one character `c` exactly when `x <= c <= y` (so
/// `Thread-[0-9]` matches `Thread-0` through `Thread-9`).
pub proof fn lemma_class_range(t: Seq<char>, x: char, y: char, c: char)
    requires
        is_literal(t),
        x != '!',
        x != '^',
        y != ']',
    ensures
        glob(t + seq!['[', x, '-', y, ']'], t + seq![c]) == (x <= c && c <= y),
{
    let tail = seq!['[', x, '-', y, ']'];
    let p = t + tail;
    let s = t + seq![c];
    lemma_literal_prefix(t, tail, seq![c], 0);
    let n = t.len() as int;
    assert(p[n] == '[');
    assert(p[n + 1] == x);
    assert(p[n + 2] == '-');
    assert(p[n + 3] == y);
    assert(p[n + 4] == ']');
    assert(s[n] == c);
    assert(!class_neg(p, n));
    assert(class_start(p, n) == n + 1);
    assert(index_of_from(p, ']', n + 4) == n + 4);
    assert(index_of_from(p, ']', n + 3) == n + 4);
    assert(index_of_from(p, ']', n + 2) == n + 4);
    assert(class_end(p, n) == n + 4);
    assert(class_has(p, n + 4, n + 4, c) == false);
    assert(class_has(p, n + 1, n + 4, c) == (x <= c && c <= y));
    assert(glob_at(p, n + 5, s, n + 1));
}

/// A pattern without wildcards matches exactly the name equal to it.
pub proof fn lemma_literal_matches_itself(p: Seq<char>, s: Seq<char>)
    requires
        is_literal(p),
    ensures
        glob(p, s) == (p == s),
{
    lemma_literal_at(p, s, 0);
    if p.len() == s.len() && (forall|k: int| 0 <= k < p.len() ==> p[k] == s[k]) {
        assert(p =~= s);
    }
}

proof fn lemma_literal_at(p: Seq<char>, s: Seq<char>, i: int)
    requires
        is_literal(p),
        0 <= i <= p.len(),
        i <= s.len(),
    ensures
        glob_at(p, i, s, i) == (p.len() == s.len() && forall|k: int|
            i <= k < p.len() ==> p[k] == s[k]),
    decreases p.len() - i,
{
    if i < p.len() && i < s.len() {
        lemma_literal_at(p, s, i + 1);
    }
}

/// The pattern `*` matches every name.
pub proof fn lemma_star_matches_all(s: Seq<char>)
    ensures
        glob(seq!['*'], s),
{
    lemma_star_from(s, 0);
}

proof fn lemma_star_from(s: Seq<char>, j: int)
    requires
        0 <= j <= s.len(),
    ensures
        glob_at(seq!['*'], 0, s, j),
    decreases s.len() - j,
{
    let p = seq!['*'];
    if j < s.len() {
        lemma_star_from(s, j + 1);
    } else {
        assert(glob_at(p, 1, s, j));
    }
}

} // verus!
