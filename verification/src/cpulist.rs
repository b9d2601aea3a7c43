//! CPU lists in the kernel's text form (`0-3,6`): parsing them into CPU
//! numbers and rendering CPU numbers back into ranges.
use vstd::prelude::*;

use crate::text::{
    all_digits, chars_of, decimal, digit_char, digit_value, digits_value, is_digit, is_ws,
    parse_unsigned, parse_usize_at, push_char, push_decimal, trim, trim_end, trim_start,
    trim_bounds,
};

verus! {

/// The field separators of a CPU list: `,` always, and `-` when `dash`
/// holds (else a space).
pub open spec fn is_sep(c: char, dash: bool) -> bool {
    c == ',' || (if dash {
        c == '-'
    } else {
        c == ' '
    })
}

/// The fields of `s` between separators, as `str::split` yields them:
/// empty fields are kept, and an empty string gives one empty field.
pub open spec fn split_fields(s: Seq<char>, dash: bool) -> Seq<Seq<char>>
    decreases s.len(),
{
    if s.len() == 0 {
        seq![Seq::<char>::empty()]
    } else {
        let r = split_fields(s.drop_last(), dash);
        if is_sep(s.last(), dash) {
            r.push(Seq::<char>::empty())
        } else {
            r.update(r.len() - 1, r.last().push(s.last()))
        }
    }
}

/// The first index at or after `i` at which `t` holds `c`, or -1.
pub open spec fn index_of_from(t: Seq<char>, c: char, i: int) -> int
    decreases t.len() - i,
{
    if i < 0 || i >= t.len() {
        -1
    } else if t[i] == c {
        i
    } else {
        index_of_from(t, c, i + 1)
    }
}

/// The CPUs `s..=e`, in ascending order (none when `s > e`).
pub open spec fn cpu_range(s: usize, e: usize) -> Seq<usize> {
    if s <= e {
        Seq::new((e - s + 1) as nat, |j: int| (s + j) as usize)
    } else {
        Seq::empty()
    }
}

/// The value `str::parse::<usize>` gives, or `default` when it fails.
pub open spec fn parse_or(t: Seq<char>, default: usize) -> usize {
    match parse_unsigned(t, usize::MAX as nat) {
        Some(n) => n as usize,
        None => default,
    }
}

/// The CPUs that one trimmed field names: `a-b` is the range from `a` to
/// `b` (an unreadable `a` counts as 0, an unreadable `b` as `a`), a bare
/// number is that CPU, and anything else names none.
pub open spec fn field_cpus(t: Seq<char>) -> Seq<usize> {
    let k = index_of_from(t, '-', 0);
    if t.len() == 0 {
        Seq::empty()
    } else if k >= 0 {
        let s = parse_or(t.take(k), 0);
        let e = parse_or(t.skip(k + 1), s);
        cpu_range(s, e)
    } else {
        match parse_unsigned(t, usize::MAX as nat) {
            Some(n) => seq![n as usize],
            None => Seq::empty(),
        }
    }
}

/// The CPUs of a sequence of fields, each field trimmed first, in order.
pub open spec fn fields_cpus(parts: Seq<Seq<char>>) -> Seq<usize>
    decreases parts.len(),
{
    if parts.len() == 0 {
        Seq::empty()
    } else {
        fields_cpus(parts.drop_last()) + field_cpus(trim(parts.last()))
    }
}

/// The CPUs that a list such as `related_cpus` names, in the order they
/// appear: fields are separated by `,` or a space.
pub open spec fn cpu_list(s: Seq<char>) -> Seq<usize> {
    fields_cpus(split_fields(s, false))
}

/// The last field of `parts`, from the end, that parses as a number.
pub open spec fn last_number(parts: Seq<Seq<char>>) -> Option<nat>
    decreases parts.len(),
{
    if parts.len() == 0 {
        None
    } else {
        match parse_unsigned(parts.last(), usize::MAX as nat) {
            Some(n) => Some(n),
            None => last_number(parts.drop_last()),
        }
    }
}

/// The runs of consecutive numbers in `s`, scanning left to right: each
/// element extends the current run when it is one more than its end.
pub open spec fn runs(s: Seq<usize>) -> Seq<(usize, usize)>
    decreases s.len(),
{
    if s.len() == 0 {
        Seq::empty()
    } else {
        let r = runs(s.drop_last());
        let x = s.last();
        if r.len() > 0 && r.last().1 + 1 == x {
            r.update(r.len() - 1, (r.last().0, x))
        } else {
            r.push((x, x))
        }
    }
}

/// One run as text: `a` or `a-b`.
pub open spec fn run_text(r: (usize, usize)) -> Seq<char> {
    if r.0 == r.1 {
        decimal(r.0 as nat)
    } else {
        decimal(r.0 as nat) + seq!['-'] + decimal(r.1 as nat)
    }
}

/// Runs as text, separated by `,`.
pub open spec fn render_runs(rs: Seq<(usize, usize)>) -> Seq<char>
    decreases rs.len(),
{
    if rs.len() == 0 {
        Seq::empty()
    } else if rs.len() == 1 {
        run_text(rs[0])
    } else {
        render_runs(rs.drop_last()) + seq![','] + run_text(rs.last())
    }
}

pub(crate) proof fn lemma_last_number_bound(parts: Seq<Seq<char>>)
    ensures
        last_number(parts) matches Some(n) ==> n <= usize::MAX,
    decreases parts.len(),
{
    if parts.len() > 0 {
        lemma_last_number_bound(parts.drop_last());
    }
}

proof fn lemma_split_step(s: Seq<char>, i: int, dash: bool)
    requires
        0 <= i < s.len(),
    ensures
        split_fields(s.take(i + 1), dash) == (if is_sep(s[i], dash) {
            split_fields(s.take(i), dash).push(Seq::<char>::empty())
        } else {
            let r = split_fields(s.take(i), dash);
            r.update(r.len() - 1, r.last().push(s[i]))
        }),
{
    assert(s.take(i + 1).drop_last() =~= s.take(i));
}

proof fn lemma_split_nonempty(s: Seq<char>, dash: bool)
    ensures
        split_fields(s, dash).len() > 0,
    decreases s.len(),
{
    if s.len() > 0 {
        lemma_split_nonempty(s.drop_last(), dash);
    }
}

/// Appends `s..=e` to `out`.
fn push_range(out: &mut Vec<usize>, s: usize, e: usize)
    ensures
        final(out)@ == old(out)@ + cpu_range(s, e),
{
    if s > e {
        assert(cpu_range(s, e) =~= Seq::<usize>::empty());
        assert(out@ =~= old(out)@ + cpu_range(s, e));
        return ;
    }
    let ghost base = out@;
    let mut c = s;
    loop
        invariant_except_break
            s <= c <= e,
            out@ == base + Seq::new((c - s) as nat, |j: int| (s + j) as usize),
        ensures
            out@ == base + cpu_range(s, e),
        decreases e - c,
    {
        out.push(c);
        if c == e {
            assert(out@ =~= base + cpu_range(s, e));
            break ;
        }
        c = c + 1;
        assert(out@ =~= base + Seq::new((c - s) as nat, |j: int| (s + j) as usize));
    }
}

/// The first index in `v[lo..hi]` holding `c`, or `hi`.
fn find_char(v: &Vec<char>, lo: usize, hi: usize, c: char) -> (k: usize)
    requires
        lo <= hi <= v@.len(),
    ensures
        lo <= k <= hi,
        index_of_from(v@.subrange(lo as int, hi as int), c, 0) == (if k < hi {
            k - lo
        } else {
            -1
        }),
{
    let ghost t = v@.subrange(lo as int, hi as int);
    let mut k = lo;
    while k < hi && v[k] != c
        invariant
            lo <= k <= hi <= v@.len(),
            t == v@.subrange(lo as int, hi as int),
            index_of_from(t, c, 0) == index_of_from(t, c, k - lo),
        decreases hi - k,
    {
        k = k + 1;
    }
    k
}

/// Appends the CPUs that the field `v[lo..hi]` names, once trimmed.
fn push_field_cpus(out: &mut Vec<usize>, v: &Vec<char>, lo: usize, hi: usize)
    requires
        lo <= hi <= v@.len(),
    ensures
        final(out)@ == old(out)@ + field_cpus(trim(v@.subrange(lo as int, hi as int))),
{
    let (a, b) = trim_bounds(v, lo, hi);
    let ghost t = v@.subrange(a as int, b as int);
    if a == b {
        assert(out@ =~= old(out)@ + field_cpus(t));
        return ;
    }
    let k = find_char(v, a, b, '-');
    if k < b {
        assert(t.take(k - a) =~= v@.subrange(a as int, k as int));
        assert(t.skip(k - a + 1) =~= v@.subrange(k + 1, b as int));
        let s = match parse_usize_at(v, a, k) {
            Some(x) => x,
            None => 0,
        };
        let e = match parse_usize_at(v, k + 1, b) {
            Some(x) => x,
            None => s,
        };
        push_range(out, s, e);
    } else {
        match parse_usize_at(v, a, b) {
            Some(x) => {
                out.push(x);
            },
            None => {},
        }
        assert(out@ =~= old(out)@ + field_cpus(t));
    }
}

/// The CPUs that a list such as `related_cpus` names, in order of
/// appearance (`0-3,6` gives 0, 1, 2, 3, 6).
pub fn parse_cpu_list(s: &str) -> (r: Vec<usize>)
    ensures
        r@ == cpu_list(s@),
{
    let v = chars_of(s);
    let mut out: Vec<usize> = Vec::new();
    let mut start: usize = 0;
    let mut i: usize = 0;
    proof {
        assert(v@.take(0) =~= Seq::<char>::empty());
        assert(split_fields(v@.take(0), false).drop_last() =~= Seq::<Seq<char>>::empty());
    }
    while i < v.len()
        invariant
            v@ == s@,
            start <= i <= v@.len(),
            split_fields(v@.take(i as int), false).len() > 0,
            out@ == fields_cpus(split_fields(v@.take(i as int), false).drop_last()),
            split_fields(v@.take(i as int), false).last() == v@.subrange(start as int, i as int),
        decreases v@.len() - i,
    {
        let ghost r = split_fields(v@.take(i as int), false);
        proof {
            lemma_split_step(v@, i as int, false);
        }
        let c = v[i];
        if c == ',' || c == ' ' {
            push_field_cpus(&mut out, &v, start, i);
            start = i + 1;
            proof {
                let r2 = split_fields(v@.take(i + 1), false);
                assert(r2.drop_last() =~= r);
                assert(r.drop_last() =~= r.drop_last());
            }
        } else {
            proof {
                let r2 = split_fields(v@.take(i + 1), false);
                assert(r2.drop_last() =~= r.drop_last());
                assert(r2.last() =~= v@.subrange(start as int, i + 1));
            }
        }
        i = i + 1;
    }
    push_field_cpus(&mut out, &v, start, v.len());
    proof {
        let r = split_fields(v@.take(v@.len() as int), false);
        assert(v@.take(v@.len() as int) =~= v@);
        assert(r.drop_last().push(r.last()) =~= r);
    }
    out
}

/// The last number in `s` when it is split at `,` and `-` (the highest CPU
/// of a `present` mask such as `0-7`), if any field parses.
pub fn last_list_number(s: &str) -> (r: Option<usize>)
    ensures
        match last_number(split_fields(s@, true)) {
            Some(n) => r == Some(n as usize) && n <= usize::MAX,
            None => r is None,
        },
{
    let v = chars_of(s);
    let mut best: Option<usize> = None;
    let mut start: usize = 0;
    let mut i: usize = 0;
    proof {
        assert(v@.take(0) =~= Seq::<char>::empty());
        assert(split_fields(v@.take(0), true).drop_last() =~= Seq::<Seq<char>>::empty());
    }
    while i < v.len()
        invariant
            v@ == s@,
            start <= i <= v@.len(),
            split_fields(v@.take(i as int), true).len() > 0,
            match last_number(split_fields(v@.take(i as int), true).drop_last()) {
                Some(n) => best == Some(n as usize),
                None => best is None,
            },
            split_fields(v@.take(i as int), true).last() == v@.subrange(start as int, i as int),
        decreases v@.len() - i,
    {
        let ghost r = split_fields(v@.take(i as int), true);
        proof {
            lemma_split_step(v@, i as int, true);
        }
        let c = v[i];
        if c == ',' || c == '-' {
            match parse_usize_at(&v, start, i) {
                Some(x) => {
                    best = Some(x);
                },
                None => {},
            }
            start = i + 1;
            proof {
                let r2 = split_fields(v@.take(i + 1), true);
                assert(r2.drop_last() =~= r);
                assert(r.drop_last().push(r.last()) =~= r);
            }
        } else {
            proof {
                let r2 = split_fields(v@.take(i + 1), true);
                assert(r2.drop_last() =~= r.drop_last());
                assert(r2.last() =~= v@.subrange(start as int, i + 1));
            }
        }
        i = i + 1;
    }
    proof {
        let r = split_fields(v@.take(v@.len() as int), true);
        assert(v@.take(v@.len() as int) =~= v@);
        assert(r.drop_last().push(r.last()) =~= r);
    }
    proof {
        lemma_last_number_bound(split_fields(s@, true));
    }
    match parse_usize_at(&v, start, v.len()) {
        Some(x) => Some(x),
        None => best,
    }
}

/// Appends the text of one run.
fn push_run(out: &mut String, r: (usize, usize))
    ensures
        final(out)@ == old(out)@ + run_text(r),
{
    push_decimal(out, r.0 as u64);
    if r.0 != r.1 {
        push_char(out, '-');
        push_decimal(out, r.1 as u64);
    }
    assert(final(out)@ =~= old(out)@ + run_text(r));
}

/// The runs of consecutive numbers in `s`.
pub fn collect_runs(s: &[usize]) -> (rs: Vec<(usize, usize)>)
    ensures
        rs@ == runs(s@),
{
    let mut rs: Vec<(usize, usize)> = Vec::new();
    let mut i: usize = 0;
    assert(s@.take(0) =~= Seq::<usize>::empty());
    while i < s.len()
        invariant
            i <= s@.len(),
            rs@ == runs(s@.take(i as int)),
        decreases s@.len() - i,
    {
        let x = s[i];
        assert(s@.take(i + 1).drop_last() =~= s@.take(i as int));
        let n = rs.len();
        if n > 0 && rs[n - 1].1 < usize::MAX && rs[n - 1].1 + 1 == x {
            let first = rs[n - 1].0;
            rs.set(n - 1, (first, x));
        } else {
            rs.push((x, x));
        }
        i = i + 1;
        assert(rs@ =~= runs(s@.take(i as int)));
    }
    assert(s@.take(s@.len() as int) =~= s@);
    rs
}

/// The text of runs, separated by `,`.
pub fn render(rs: &Vec<(usize, usize)>) -> (out: String)
    ensures
        out@ == render_runs(rs@),
{
    let mut out = String::new();
    let mut j: usize = 0;
    assert(rs@.take(0) =~= Seq::<(usize, usize)>::empty());
    while j < rs.len()
        invariant
            j <= rs@.len(),
            out@ == render_runs(rs@.take(j as int)),
        decreases rs@.len() - j,
    {
        assert(rs@.take(j + 1).drop_last() =~= rs@.take(j as int));
        if j > 0 {
            push_char(&mut out, ',');
        }
        push_run(&mut out, rs[j]);
        j = j + 1;
        assert(out@ =~= render_runs(rs@.take(j as int)));
    }
    assert(rs@.take(rs@.len() as int) =~= rs@);
    out
}

/// The numbers that runs stand for, in order.
pub open spec fn expand(rs: Seq<(usize, usize)>) -> Seq<usize>
    decreases rs.len(),
{
    if rs.len() == 0 {
        Seq::empty()
    } else {
        expand(rs.drop_last()) + cpu_range(rs.last().0, rs.last().1)
    }
}

/// Every run goes upward.
pub open spec fn runs_ok(rs: Seq<(usize, usize)>) -> bool {
    forall|i: int| 0 <= i < rs.len() ==> (#[trigger] rs[i]).0 <= rs[i].1
}

/// `t` holds no field separator.
pub open spec fn no_sep(t: Seq<char>, dash: bool) -> bool {
    forall|k: int| 0 <= k < t.len() ==> !is_sep(#[trigger] t[k], dash)
}

/// The runs of a list stand for exactly that list.
pub proof fn lemma_runs_expand(s: Seq<usize>)
    ensures
        runs_ok(runs(s)),
        expand(runs(s)) == s,
    decreases s.len(),
{
    if s.len() == 0 {
        assert(expand(runs(s)) =~= s);
    } else {
        let d = s.drop_last();
        lemma_runs_expand(d);
        let r = runs(d);
        let x = s.last();
        if r.len() > 0 && r.last().1 + 1 == x {
            let r2 = r.update(r.len() - 1, (r.last().0, x));
            assert(r2.drop_last() =~= r.drop_last());
            assert(cpu_range(r.last().0, x) =~= cpu_range(r.last().0, r.last().1).push(x));
            assert(expand(r2) =~= expand(r).push(x));
            assert(s =~= d.push(x));
        } else {
            let r2 = r.push((x, x));
            assert(r2.drop_last() =~= r);
            assert(cpu_range(x, x) =~= seq![x]);
            assert(s =~= d.push(x));
            assert(expand(r2) =~= s);
        }
    }
}

/// The rendering of a number is a non-empty string of digits whose value
/// is that number.
proof fn lemma_digit(k: int)
    requires
        0 <= k < 10,
    ensures
        is_digit(digit_char(k)),
        digit_value(digit_char(k)) == k,
{
    if k == 0 {
    } else if k == 1 {
    } else if k == 2 {
    } else if k == 3 {
    } else if k == 4 {
    } else if k == 5 {
    } else if k == 6 {
    } else if k == 7 {
    } else if k == 8 {
    } else {
    }
}

pub proof fn lemma_decimal(n: nat)
    ensures
        decimal(n).len() > 0,
        all_digits(decimal(n)),
        digits_value(decimal(n)) == n,
    decreases n,
{
    if n < 10 {
        lemma_digit(n as int);
        assert(decimal(n).drop_last() =~= Seq::<char>::empty());
        assert(digits_value(Seq::<char>::empty()) == 0);
        assert(digits_value(decimal(n)) == digits_value(decimal(n).drop_last()) * 10 + digit_value(
            decimal(n).last(),
        ));
    } else {
        lemma_digit((n % 10) as int);
        assert(n == (n / 10) * 10 + n % 10);
        lemma_decimal(n / 10);
        let d = decimal(n / 10);
        let t = decimal(n);
        assert(t.drop_last() =~= d);
        assert(t.last() == digit_char((n % 10) as int));
        assert(digits_value(t) == digits_value(t.drop_last()) * 10 + digit_value(t.last()));
        assert forall|i: int| 0 <= i < t.len() implies is_digit(#[trigger] t[i]) by {
            if i < d.len() {
                assert(t[i] == d[i]);
            }
        }
    }
}

/// Parsing the rendering of a number gives the number.
pub proof fn lemma_parse_decimal(n: nat, max: nat)
    requires
        n <= max,
    ensures
        parse_unsigned(decimal(n), max) == Some(n),
{
    lemma_decimal(n);
    assert(is_digit(decimal(n)[0]));
}

/// A string without separators is one field.
pub proof fn lemma_split_nosep(t: Seq<char>, dash: bool)
    requires
        no_sep(t, dash),
    ensures
        split_fields(t, dash) == seq![t],
    decreases t.len(),
{
    if t.len() > 0 {
        let d = t.drop_last();
        assert(no_sep(d, dash)) by {
            assert forall|k: int| 0 <= k < d.len() implies !is_sep(#[trigger] d[k], dash) by {
                assert(d[k] == t[k]);
            }
        }
        lemma_split_nosep(d, dash);
        assert(!is_sep(t[t.len() - 1], dash));
        assert(d.push(t.last()) =~= t);
        assert(seq![d].update(0, d.push(t.last())) =~= seq![t]);
    } else {
        assert(t =~= Seq::<char>::empty());
    }
}

/// A separator followed by a field without separators adds that field.
pub proof fn lemma_split_concat(a: Seq<char>, t: Seq<char>)
    requires
        no_sep(t, false),
    ensures
        split_fields(a + seq![','] + t, false) == split_fields(a, false).push(t),
    decreases t.len(),
{
    let x = a + seq![','] + t;
    if t.len() == 0 {
        assert(x =~= a.push(','));
        assert(x.drop_last() =~= a);
        assert(t =~= Seq::<char>::empty());
    } else {
        let d = t.drop_last();
        assert(no_sep(d, false)) by {
            assert forall|k: int| 0 <= k < d.len() implies !is_sep(#[trigger] d[k], false) by {
                assert(d[k] == t[k]);
            }
        }
        lemma_split_concat(a, d);
        assert(x.drop_last() =~= a + seq![','] + d);
        assert(x.last() == t.last());
        assert(!is_sep(t[t.len() - 1], false));
        lemma_split_nonempty(a, false);
        let r = split_fields(a, false).push(d);
        assert(r.update(r.len() - 1, r.last().push(t.last())) =~= split_fields(a, false).push(t)) by {
            assert(d.push(t.last()) =~= t);
        }
    }
}

proof fn lemma_index_none(t: Seq<char>, c: char, i: int)
    requires
        0 <= i,
        forall|k: int| i <= k < t.len() ==> t[k] != c,
    ensures
        index_of_from(t, c, i) == -1,
    decreases t.len() - i,
{
    if i < t.len() {
        lemma_index_none(t, c, i + 1);
    }
}

proof fn lemma_index_at(t: Seq<char>, c: char, i: int, k: int)
    requires
        0 <= i <= k < t.len(),
        t[k] == c,
        forall|j: int| i <= j < k ==> t[j] != c,
    ensures
        index_of_from(t, c, i) == k,
    decreases k - i,
{
    if i < k {
        lemma_index_at(t, c, i + 1, k);
    }
}

proof fn lemma_trim_plain(t: Seq<char>)
    requires
        t.len() > 0,
        !is_ws(t[0]),
        !is_ws(t.last()),
    ensures
        trim(t) == t,
{
}

/// The text of an upward run names exactly the numbers of the run.
pub proof fn lemma_run_text(r: (usize, usize))
    requires
        r.0 <= r.1,
    ensures
        no_sep(run_text(r), false),
        field_cpus(trim(run_text(r))) == cpu_range(r.0, r.1),
{
    let a = decimal(r.0 as nat);
    let b = decimal(r.1 as nat);
    lemma_decimal(r.0 as nat);
    lemma_decimal(r.1 as nat);
    let t = run_text(r);
    if r.0 == r.1 {
        lemma_trim_plain(t);
        lemma_index_none(t, '-', 0);
        lemma_parse_decimal(r.0 as nat, usize::MAX as nat);
        assert(cpu_range(r.0, r.1) =~= seq![r.0]);
        assert(no_sep(t, false));
    } else {
        assert(t =~= a + seq!['-'] + b);
        assert(t[0] == a[0]);
        assert(t.last() == b.last());
        lemma_trim_plain(t);
        lemma_index_at(t, '-', 0, a.len() as int);
        assert(t.take(a.len() as int) =~= a);
        assert(t.skip(a.len() as int + 1) =~= b);
        lemma_parse_decimal(r.0 as nat, usize::MAX as nat);
        lemma_parse_decimal(r.1 as nat, usize::MAX as nat);
        assert forall|k: int| 0 <= k < t.len() implies !is_sep(#[trigger] t[k], false) by {
            if k < a.len() {
                assert(t[k] == a[k]);
            } else if k > a.len() {
                assert(t[k] == b[k - a.len() - 1]);
            }
        }
    }
}

/// Parsing the rendering of upward runs gives the numbers they stand for.
pub proof fn lemma_render_parse(rs: Seq<(usize, usize)>)
    requires
        rs.len() > 0,
        runs_ok(rs),
    ensures
        cpu_list(render_runs(rs)) == expand(rs),
    decreases rs.len(),
{
    let last = rs.last();
    lemma_run_text(last);
    if rs.len() == 1 {
        lemma_split_nosep(run_text(rs[0]), false);
        assert(seq![run_text(rs[0])].drop_last() =~= Seq::<Seq<char>>::empty());
        assert(rs.drop_last() =~= Seq::<(usize, usize)>::empty());
        assert(expand(rs.drop_last()) == Seq::<usize>::empty());
        assert(expand(rs) =~= cpu_range(last.0, last.1));
        assert(fields_cpus(seq![run_text(rs[0])]) == fields_cpus(Seq::<Seq<char>>::empty())
            + field_cpus(trim(run_text(rs[0]))));
        assert(fields_cpus(seq![run_text(rs[0])]) =~= cpu_range(last.0, last.1));
    } else {
        let d = rs.drop_last();
        assert(runs_ok(d)) by {
            assert forall|i: int| 0 <= i < d.len() implies (#[trigger] d[i]).0 <= d[i].1 by {
                assert(d[i] == rs[i]);
            }
        }
        lemma_render_parse(d);
        lemma_split_concat(render_runs(d), run_text(last));
        let parts = split_fields(render_runs(d), false).push(run_text(last));
        assert(parts.drop_last() =~= split_fields(render_runs(d), false));
    }
}

/// Rendering a non-empty list of numbers as runs and parsing the text back
/// gives the list again.
pub proof fn lemma_cpu_list_roundtrip(s: Seq<usize>)
    requires
        s.len() > 0,
    ensures
        cpu_list(render_runs(runs(s))) == s,
{
    lemma_runs_expand(s);
    lemma_runs_nonempty(s);
    lemma_render_parse(runs(s));
}

proof fn lemma_runs_nonempty(s: Seq<usize>)
    requires
        s.len() > 0,
    ensures
        runs(s).len() > 0,
{
}

} // verus!
