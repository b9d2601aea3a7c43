//! Character-level helpers: decimal rendering and parsing, whitespace
//! trimming, and splitting, all stated over `Seq<char>`.
use vstd::prelude::*;

verus! {

/// The character of a decimal digit.
pub open spec fn digit_char(d: int) -> char {
    if d == 0 {
        '0'
    } else if d == 1 {
        '1'
    } else if d == 2 {
        '2'
    } else if d == 3 {
        '3'
    } else if d == 4 {
        '4'
    } else if d == 5 {
        '5'
    } else if d == 6 {
        '6'
    } else if d == 7 {
        '7'
    } else if d == 8 {
        '8'
    } else {
        '9'
    }
}

/// Whether `c` is an ASCII decimal digit.
pub open spec fn is_digit(c: char) -> bool {
    '0' <= c <= '9'
}

/// The value of an ASCII decimal digit.
pub open spec fn digit_value(c: char) -> nat {
    (c as int - '0' as int) as nat
}

/// The shortest decimal rendering of `n`, as `to_string` prints it.
pub open spec fn decimal(n: nat) -> Seq<char>
    decreases n,
{
    if n < 10 {
        seq![digit_char(n as int)]
    } else {
        decimal(n / 10).push(digit_char((n % 10) as int))
    }
}

/// Whether every character of `s` is an ASCII digit.
pub open spec fn all_digits(s: Seq<char>) -> bool {
    forall|i: int| 0 <= i < s.len() ==> is_digit(#[trigger] s[i])
}

/// The value of a string of decimal digits.
pub open spec fn digits_value(s: Seq<char>) -> nat
    decreases s.len(),
{
    if s.len() == 0 {
        0
    } else {
        digits_value(s.drop_last()) * 10 + digit_value(s.last())
    }
}

/// What `str::parse` gives for an unsigned integer type whose largest value
/// is `max`: an optional `+`, then one or more digits, with a value of at
/// most `max`.
pub open spec fn parse_unsigned(s: Seq<char>, max: nat) -> Option<nat> {
    let d = if s.len() > 0 && s[0] == '+' {
        s.drop_first()
    } else {
        s
    };
    if d.len() > 0 && all_digits(d) && digits_value(d) <= max {
        Some(digits_value(d))
    } else {
        None
    }
}

/// The characters that `char::is_whitespace` accepts (Unicode White_Space).
pub open spec fn is_ws(c: char) -> bool {
    ||| '\u{9}' <= c <= '\u{d}'
    ||| c == ' '
    ||| c == '\u{85}'
    ||| c == '\u{a0}'
    ||| c == '\u{1680}'
    ||| '\u{2000}' <= c <= '\u{200a}'
    ||| c == '\u{2028}'
    ||| c == '\u{2029}'
    ||| c == '\u{202f}'
    ||| c == '\u{205f}'
    ||| c == '\u{3000}'
}

/// `s` without its leading whitespace.
pub open spec fn trim_start(s: Seq<char>) -> Seq<char>
    decreases s.len(),
{
    if s.len() > 0 && is_ws(s[0]) {
        trim_start(s.drop_first())
    } else {
        s
    }
}

/// `s` without its trailing whitespace.
pub open spec fn trim_end(s: Seq<char>) -> Seq<char>
    decreases s.len(),
{
    if s.len() > 0 && is_ws(s.last()) {
        trim_end(s.drop_last())
    } else {
        s
    }
}

/// `s` without leading and trailing whitespace, as `str::trim` gives it.
pub open spec fn trim(s: Seq<char>) -> Seq<char> {
    trim_end(trim_start(s))
}

/// Appends `c` to `s`.
/// Calls `String::push`, which appends one character to the string.
#[verifier::external_body]
pub(crate) fn push_char(s: &mut String, c: char)
    ensures
        final(s)@ == old(s)@.push(c),
{
    s.push(c)
}

/// The characters of `s`, one per element.
pub fn chars_of(s: &str) -> (v: Vec<char>)
    ensures
        v@ == s@,
{
    let n = s.unicode_len();
    let mut v: Vec<char> = Vec::new();
    let mut i: usize = 0;
    while i < n
        invariant
            n == s@.len(),
            i <= n,
            v@ == s@.take(i as int),
        decreases n - i,
    {
        let c = s.get_char(i);
        v.push(c);
        i = i + 1;
        assert(v@ =~= s@.take(i as int));
    }
    assert(v@ =~= s@);
    v
}

/// The string made of the characters `v[lo..hi]`.
pub fn string_of(v: &Vec<char>, lo: usize, hi: usize) -> (r: String)
    requires
        lo <= hi <= v@.len(),
    ensures
        r@ == v@.subrange(lo as int, hi as int),
{
    let mut r = String::new();
    let mut i: usize = lo;
    while i < hi
        invariant
            lo <= i <= hi <= v@.len(),
            r@ == v@.subrange(lo as int, i as int),
        decreases hi - i,
    {
        push_char(&mut r, v[i]);
        i = i + 1;
        assert(r@ =~= v@.subrange(lo as int, i as int));
    }
    r
}

/// Whether two strings hold the same characters.
pub fn str_eq(a: &str, b: &str) -> (r: bool)
    ensures
        r == (a@ == b@),
{
    let va = chars_of(a);
    let vb = chars_of(b);
    if va.len() != vb.len() {
        return false;
    }
    let mut i: usize = 0;
    while i < va.len()
        invariant
            va@ == a@,
            vb@ == b@,
            va@.len() == vb@.len(),
            i <= va@.len(),
            forall|k: int| 0 <= k < i ==> va@[k] == vb@[k],
        decreases va@.len() - i,
    {
        if va[i] != vb[i] {
            return false;
        }
        i = i + 1;
    }
    assert(a@ =~= b@);
    true
}

/// The character of the decimal digit `d`.
pub fn digit_to_char(d: u64) -> (c: char)
    requires
        d < 10,
    ensures
        c == digit_char(d as int),
        is_digit(c),
        digit_value(c) == d,
{
    if d == 0 {
        '0'
    } else if d == 1 {
        '1'
    } else if d == 2 {
        '2'
    } else if d == 3 {
        '3'
    } else if d == 4 {
        '4'
    } else if d == 5 {
        '5'
    } else if d == 6 {
        '6'
    } else if d == 7 {
        '7'
    } else if d == 8 {
        '8'
    } else {
        '9'
    }
}

/// Appends the decimal rendering of `n` to `out`.
pub fn push_decimal(out: &mut String, n: u64)
    ensures
        final(out)@ == old(out)@ + decimal(n as nat),
    decreases n,
{
    if n >= 10 {
        push_decimal(out, n / 10);
    }
    let c = digit_to_char(n % 10);
    push_char(out, c);
    assert(final(out)@ =~= old(out)@ + decimal(n as nat));
}

/// Whether `c` is whitespace in the sense of `char::is_whitespace`.
pub fn char_is_ws(c: char) -> (r: bool)
    ensures
        r == is_ws(c),
{
    ('\u{9}' <= c && c <= '\u{d}') || c == ' ' || c == '\u{85}' || c == '\u{a0}' || c == '\u{1680}'
        || ('\u{2000}' <= c && c <= '\u{200a}') || c == '\u{2028}' || c == '\u{2029}' || c
        == '\u{202f}' || c == '\u{205f}' || c == '\u{3000}'
}


/// Larger prefixes of a digit string never have a smaller value.
pub proof fn lemma_digits_value_prefix(s: Seq<char>, k: int)
    requires
        all_digits(s),
        0 <= k <= s.len(),
    ensures
        digits_value(s.take(k)) <= digits_value(s),
    decreases s.len(),
{
    if k < s.len() {
        assert(s.drop_last().take(k) =~= s.take(k));
        assert(all_digits(s.drop_last()));
        lemma_digits_value_prefix(s.drop_last(), k);
    } else {
        assert(s.take(k) =~= s);
    }
}

/// The bounds of `trim(v[lo..hi])` within `v`.
pub fn trim_bounds(v: &Vec<char>, lo: usize, hi: usize) -> (r: (usize, usize))
    requires
        lo <= hi <= v@.len(),
    ensures
        lo <= r.0 <= r.1 <= hi,
        v@.subrange(r.0 as int, r.1 as int) == trim(v@.subrange(lo as int, hi as int)),
{
    let mut a: usize = lo;
    while a < hi && char_is_ws(v[a])
        invariant
            lo <= a <= hi <= v@.len(),
            trim_start(v@.subrange(lo as int, hi as int)) == trim_start(
                v@.subrange(a as int, hi as int),
            ),
        decreases hi - a,
    {
        assert(v@.subrange(a as int, hi as int).drop_first() =~= v@.subrange(
            a + 1,
            hi as int,
        ));
        a = a + 1;
    }
    assert(trim_start(v@.subrange(a as int, hi as int)) == v@.subrange(a as int, hi as int));
    let mut b: usize = hi;
    while b > a && char_is_ws(v[b - 1])
        invariant
            lo <= a <= b <= hi <= v@.len(),
            trim(v@.subrange(lo as int, hi as int)) == trim_end(v@.subrange(a as int, b as int)),
        decreases b - a,
    {
        assert(v@.subrange(a as int, b as int).drop_last() =~= v@.subrange(
            a as int,
            b - 1,
        ));
        b = b - 1;
    }
    (a, b)
}

/// What `str::parse::<u64>` gives for the characters `v[lo..hi]`.
pub fn parse_u64_at(v: &Vec<char>, lo: usize, hi: usize) -> (r: Option<u64>)
    requires
        lo <= hi <= v@.len(),
    ensures
        match parse_unsigned(v@.subrange(lo as int, hi as int), u64::MAX as nat) {
            Some(n) => r == Some(n as u64),
            None => r is None,
        },
{
    let ghost s = v@.subrange(lo as int, hi as int);
    let mut i: usize = lo;
    if i < hi && v[i] == '+' {
        i = i + 1;
        assert(s.drop_first() =~= v@.subrange(i as int, hi as int));
    } else {
        assert(s =~= v@.subrange(i as int, hi as int));
    }
    let ghost d = v@.subrange(i as int, hi as int);
    if i >= hi {
        return None;
    }
    let start = i;
    let mut acc: u64 = 0;
    assert(parse_unsigned(v@.subrange(lo as int, hi as int), u64::MAX as nat) == (if d.len() > 0
        && all_digits(d) && digits_value(d) <= u64::MAX {
        Some(digits_value(d))
    } else {
        None::<nat>
    }));
    while i < hi
        invariant
            lo <= start <= i <= hi <= v@.len(),
            d == v@.subrange(start as int, hi as int),
            d.len() > 0,
            parse_unsigned(v@.subrange(lo as int, hi as int), u64::MAX as nat) == (if all_digits(d)
                && digits_value(d) <= u64::MAX {
                Some(digits_value(d))
            } else {
                None::<nat>
            }),
            all_digits(v@.subrange(start as int, i as int)),
            acc == digits_value(v@.subrange(start as int, i as int)),
        decreases hi - i,
    {
        let c = v[i];
        if !('0' <= c && c <= '9') {
            assert(d[i - start] == c);
            return None;
        }
        let dv = (c as u32 - '0' as u32) as u64;
        let ghost pre = v@.subrange(start as int, i + 1);
        assert(pre.drop_last() =~= v@.subrange(start as int, i as int));
        if acc > 1844674407370955161 || (acc == 1844674407370955161 && dv > 5) {
            proof {
                assert(digits_value(pre) > u64::MAX);
                if all_digits(d) {
                    assert(d.take(i + 1 - start) =~= pre);
                    lemma_digits_value_prefix(d, i + 1 - start);
                }
            }
            return None;
        }
        acc = acc * 10 + dv;
        i = i + 1;
        assert(all_digits(v@.subrange(start as int, i as int)));
    }
    assert(d =~= v@.subrange(start as int, i as int));
    Some(acc)
}

/// What `str::parse::<usize>` gives for the characters `v[lo..hi]`.
pub fn parse_usize_at(v: &Vec<char>, lo: usize, hi: usize) -> (r: Option<usize>)
    requires
        lo <= hi <= v@.len(),
    ensures
        match parse_unsigned(v@.subrange(lo as int, hi as int), usize::MAX as nat) {
            Some(n) => r == Some(n as usize),
            None => r is None,
        },
{
    match parse_u64_at(v, lo, hi) {
        Some(x) => {
            if x as u128 > usize::MAX as u128 {
                None
            } else {
                Some(x as usize)
            }
        },
        None => None,
    }
}

} // verus!
