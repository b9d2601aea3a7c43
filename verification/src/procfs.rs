//! Reading what `/proc` says of a process: the package in its `cmdline`, a
//! thread's `comm`, the owner in its `status`, and whether it is an
//! unconfigured user app.
use vstd::prelude::*;

use crate::config::{names_hold, some_pattern_matches, list_has};
use crate::cpulist::index_of_from;
use crate::fnmatch::fnmatch;
use crate::text::{chars_of, is_ws, parse_unsigned, parse_u64_at, string_of, trim, trim_bounds, char_is_ws};

verus! {

/// Processes below this pid are the system's own.
pub const MIN_USER_PID: i32 = 1000;

/// Uids from this one up belong to apps.
pub const MIN_APP_UID: u32 = 10000;

/// The first argument of a `cmdline` (the text before the first NUL).
pub open spec fn first_arg(cl: Seq<char>) -> Seq<char> {
    let k = index_of_from(cl, '\0', 0);
    if k >= 0 {
        cl.take(k)
    } else {
        cl
    }
}

/// Whether `s` holds `c`.
pub open spec fn has_char(s: Seq<char>, c: char) -> bool {
    s.contains(c)
}

/// Whether the process named `pkg` is an app that no rule covers: a
/// package name (with a `.`, without a `/`) that neither `set` lists nor a
/// pattern of `wild` matches.
pub open spec fn unconfigured_app(pkg: Seq<char>, set: Seq<String>, wild: Seq<String>) -> bool {
    &&& pkg.len() > 0
    &&& !has_char(pkg, '/')
    &&& has_char(pkg, '.')
    &&& !names_hold(set, pkg)
    &&& !some_pattern_matches(wild, pkg)
}

/// The lines of `s`: its pieces between `\n` characters.
pub open spec fn lines(s: Seq<char>) -> Seq<Seq<char>>
    decreases s.len(),
{
    if s.len() == 0 {
        seq![Seq::<char>::empty()]
    } else {
        let r = lines(s.drop_last());
        if s.last() == '\n' {
            r.push(Seq::<char>::empty())
        } else {
            r.update(r.len() - 1, r.last().push(s.last()))
        }
    }
}

/// The whitespace-separated words of `s`, as `split_whitespace` yields them.
pub open spec fn words(s: Seq<char>) -> Seq<Seq<char>>
    decreases s.len(),
{
    if s.len() == 0 {
        Seq::empty()
    } else {
        let r = words(s.drop_last());
        let c = s.last();
        if is_ws(c) {
            r
        } else if s.len() > 1 && !is_ws(s[s.len() - 2]) && r.len() > 0 {
            r.update(r.len() - 1, r.last().push(c))
        } else {
            r.push(seq![c])
        }
    }
}

/// Whether `line` begins with `Uid:`.
pub open spec fn is_uid_line(line: Seq<char>) -> bool {
    line.len() >= 4 && line[0] == 'U' && line[1] == 'i' && line[2] == 'd' && line[3] == ':'
}

/// The first line of `ls` that begins with `Uid:`.
pub open spec fn first_uid_line(ls: Seq<Seq<char>>) -> Option<Seq<char>>
    decreases ls.len(),
{
    if ls.len() == 0 {
        None
    } else if is_uid_line(ls[0]) {
        Some(ls[0])
    } else {
        first_uid_line(ls.drop_first())
    }
}

/// Whether a `status` text shows an app's process: its first `Uid:` line
/// has a second word that reads as a `u32` of at least `MIN_APP_UID`.
pub open spec fn app_status(st: Seq<char>) -> bool {
    match first_uid_line(lines(st)) {
        None => false,
        Some(line) => {
            let w = words(line);
            w.len() > 1 && match parse_unsigned(w[1], u32::MAX as nat) {
                Some(uid) => uid >= MIN_APP_UID,
                None => false,
            }
        },
    }
}

/// The package a `cmdline` names: its first argument, if not empty.
pub fn cmdline_pkg(cl: &str) -> (r: Option<String>)
    ensures
        match r {
            Some(p) => p@ == first_arg(cl@) && p@.len() > 0,
            None => first_arg(cl@).len() == 0,
        },
{
    let v = chars_of(cl);
    let mut k: usize = 0;
    while k < v.len() && v[k] != '\0'
        invariant
            k <= v@.len(),
            v@ == cl@,
            index_of_from(v@, '\0', 0) == index_of_from(v@, '\0', k as int),
        decreases v@.len() - k,
    {
        k = k + 1;
    }
    if k == v.len() {
        assert(v@.subrange(0, k as int) =~= v@);
    }
    assert(v@.subrange(0, k as int) =~= v@.take(k as int));
    if k == 0 {
        return None;
    }
    Some(string_of(&v, 0, k))
}

/// The name a `comm` file holds, trimmed, if not empty.
pub fn comm_name(text: &str) -> (r: Option<String>)
    ensures
        match r {
            Some(s) => s@ == trim(text@) && s@.len() > 0,
            None => trim(text@).len() == 0,
        },
{
    let v = chars_of(text);
    let (a, b) = trim_bounds(&v, 0, v.len());
    assert(v@.subrange(0, v@.len() as int) =~= v@);
    if a == b {
        return None;
    }
    Some(string_of(&v, a, b))
}

fn contains_char(v: &Vec<char>, c: char) -> (r: bool)
    ensures
        r == v@.contains(c),
{
    let mut i: usize = 0;
    while i < v.len()
        invariant
            i <= v@.len(),
            forall|k: int| 0 <= k < i ==> v@[k] != c,
        decreases v@.len() - i,
    {
        if v[i] == c {
            return true;
        }
        i = i + 1;
    }
    false
}

/// Whether the process named `pkg` is an app that no rule covers.
pub fn is_unconfigured_app(pkg: &str, set: &Vec<String>, wild: &Vec<String>) -> (r: bool)
    ensures
        r == unconfigured_app(pkg@, set@, wild@),
{
    let v = chars_of(pkg);
    if v.len() == 0 || contains_char(&v, '/') || !contains_char(&v, '.') {
        return false;
    }
    if list_has(set, pkg) {
        return false;
    }
    let mut i: usize = 0;
    while i < wild.len()
        invariant
            i <= wild@.len(),
            forall|k: int| 0 <= k < i ==> !crate::fnmatch::glob(#[trigger] wild@[k]@, pkg@),
        decreases wild@.len() - i,
    {
        if fnmatch(wild[i].as_str(), pkg) {
            return false;
        }
        i = i + 1;
    }
    true
}

pub(crate) proof fn lemma_lines_nonempty(s: Seq<char>)
    ensures
        lines(s).len() > 0,
    decreases s.len(),
{
    if s.len() > 0 {
        lemma_lines_nonempty(s.drop_last());
    }
}

/// The bounds of the second word of `v[lo..hi]`, if it has one.
#[verifier::spinoff_prover]
fn second_word(v: &Vec<char>, lo: usize, hi: usize) -> (r: Option<(usize, usize)>)
    requires
        lo <= hi <= v@.len(),
    ensures
        match r {
            Some((a, b)) => {
                &&& words(v@.subrange(lo as int, hi as int)).len() > 1
                &&& lo <= a <= b <= hi
                &&& v@.subrange(a as int, b as int) == words(v@.subrange(lo as int, hi as int))[1]
            },
            None => words(v@.subrange(lo as int, hi as int)).len() <= 1,
        },
{
    let ghost t = v@.subrange(lo as int, hi as int);
    let mut starts: Vec<usize> = Vec::new();
    let mut ends: Vec<usize> = Vec::new();
    let mut i: usize = lo;
    assert(t.take(0) =~= Seq::<char>::empty());
    while i < hi
        invariant
            lo <= i <= hi <= v@.len(),
            t == v@.subrange(lo as int, hi as int),
            starts@.len() == ends@.len(),
            starts@.len() == words(t.take(i - lo)).len(),
            forall|k: int|
                0 <= k < starts@.len() ==> lo <= #[trigger] starts@[k] <= ends@[k] <= i && v@.subrange(
                    starts@[k] as int,
                    ends@[k] as int,
                ) == words(t.take(i - lo))[k],
            starts@.len() > 0 && i > lo && !is_ws(v@[i - 1]) ==> ends@[starts@.len() - 1] == i,
        decreases hi - i,
    {
        let ghost p = t.take(i - lo);
        let ghost q = t.take(i - lo + 1);
        assert(q.drop_last() =~= p);
        assert(q.last() == v@[i as int]);
        let c = v[i];
        if char_is_ws(c) {
            assert(words(q) == words(p));
        } else if i > lo && !char_is_ws(v[i - 1]) && starts.len() > 0 {
            assert(q[q.len() - 2] == v@[i - 1]);
            let n = ends.len();
            ends.set(n - 1, i + 1);
            proof {
                let w = words(q);
                assert forall|k: int| 0 <= k < starts@.len() implies lo <= #[trigger] starts@[k]
                    <= ends@[k] <= i + 1 && v@.subrange(starts@[k] as int, ends@[k] as int) == w[k] by {
                    if k == n - 1 {
                        assert(v@.subrange(starts@[k] as int, i + 1) =~= v@.subrange(
                            starts@[k] as int,
                            i as int,
                        ).push(c));
                    }
                }
            }
        } else {
            if i > lo {
                assert(q[q.len() - 2] == v@[i - 1]);
            }
            starts.push(i);
            ends.push(i + 1);
            proof {
                let w = words(q);
                assert(v@.subrange(i as int, i + 1) =~= seq![c]);
                assert forall|k: int| 0 <= k < starts@.len() implies lo <= #[trigger] starts@[k]
                    <= ends@[k] <= i + 1 && v@.subrange(starts@[k] as int, ends@[k] as int) == w[k] by {
                }
            }
        }
        i = i + 1;
    }
    assert(t.take(hi - lo) =~= t);
    if starts.len() > 1 {
        Some((starts[1], ends[1]))
    } else {
        None
    }
}

pub(crate) proof fn lemma_lines_step(s: Seq<char>, i: int)
    requires
        0 <= i < s.len(),
    ensures
        lines(s.take(i + 1)) == (if s[i] == '\n' {
            lines(s.take(i)).push(Seq::<char>::empty())
        } else {
            let r = lines(s.take(i));
            r.update(r.len() - 1, r.last().push(s[i]))
        }),
{
    assert(s.take(i + 1).drop_last() =~= s.take(i));
}

proof fn lemma_lines_prefix(s: Seq<char>, i: int, k: int)
    requires
        0 <= i <= s.len(),
        0 <= k < lines(s.take(i)).len() - 1,
    ensures
        k < lines(s).len() - 1,
        lines(s)[k] == lines(s.take(i))[k],
    decreases s.len() - i,
{
    if i == s.len() {
        assert(s.take(i) =~= s);
    } else {
        lemma_lines_step(s, i);
        lemma_lines_nonempty(s.take(i));
        lemma_lines_prefix(s, i + 1, k);
    }
}

proof fn lemma_first_uid_at(ls: Seq<Seq<char>>, m: int)
    requires
        0 <= m < ls.len(),
        is_uid_line(ls[m]),
        forall|k: int| 0 <= k < m ==> !is_uid_line(#[trigger] ls[k]),
    ensures
        first_uid_line(ls) == Some(ls[m]),
    decreases m,
{
    if m > 0 {
        let d = ls.drop_first();
        assert forall|k: int| 0 <= k < m - 1 implies !is_uid_line(#[trigger] d[k]) by {
            assert(d[k] == ls[k + 1]);
        }
        lemma_first_uid_at(d, m - 1);
    }
}

proof fn lemma_first_uid_none(ls: Seq<Seq<char>>)
    requires
        forall|k: int| 0 <= k < ls.len() ==> !is_uid_line(#[trigger] ls[k]),
    ensures
        first_uid_line(ls) is None,
    decreases ls.len(),
{
    if ls.len() > 0 {
        let d = ls.drop_first();
        assert forall|k: int| 0 <= k < d.len() implies !is_uid_line(#[trigger] d[k]) by {
            assert(d[k] == ls[k + 1]);
        }
        lemma_first_uid_none(d);
    }
}

fn uid_line_at(v: &Vec<char>, lo: usize, hi: usize) -> (r: bool)
    requires
        lo <= hi <= v@.len(),
    ensures
        r == is_uid_line(v@.subrange(lo as int, hi as int)),
{
    hi - lo >= 4 && v[lo] == 'U' && v[lo + 1] == 'i' && v[lo + 2] == 'd' && v[lo + 3] == ':'
}

fn uid_line_verdict(v: &Vec<char>, lo: usize, hi: usize) -> (r: bool)
    requires
        lo <= hi <= v@.len(),
    ensures
        r == ({
            let w = words(v@.subrange(lo as int, hi as int));
            w.len() > 1 && match parse_unsigned(w[1], u32::MAX as nat) {
                Some(uid) => uid >= MIN_APP_UID,
                None => false,
            }
        }),
{
    match second_word(v, lo, hi) {
        None => false,
        Some((a, b)) => match parse_u64_at(v, a, b) {
            Some(x) => x <= 0xffff_ffffu64 && x >= 10000,
            None => false,
        },
    }
}

/// Whether a `status` text shows an app's process; see `app_status`.
pub fn is_app_status(st: &str) -> (r: bool)
    ensures
        r == app_status(st@),
{
    let v = chars_of(st);
    let mut start: usize = 0;
    let mut i: usize = 0;
    proof {
        assert(v@.take(0) =~= Seq::<char>::empty());
    }
    while i < v.len()
        invariant
            v@ == st@,
            start <= i <= v@.len(),
            lines(v@.take(i as int)).len() > 0,
            lines(v@.take(i as int)).last() == v@.subrange(start as int, i as int),
            forall|k: int|
                0 <= k < lines(v@.take(i as int)).len() - 1 ==> !is_uid_line(
                    #[trigger] lines(v@.take(i as int))[k],
                ),
        decreases v@.len() - i,
    {
        proof {
            lemma_lines_step(v@, i as int);
        }
        let ghost li = lines(v@.take(i as int));
        let ghost lj = lines(v@.take(i + 1));
        if v[i] == '\n' {
            if uid_line_at(&v, start, i) {
                proof {
                    let m = li.len() - 1;
                    assert(lj[m] == li[m]);
                    lemma_lines_prefix(v@, i + 1, m);
                    assert forall|k: int| 0 <= k < m implies !is_uid_line(#[trigger] lines(v@)[k]) by {
                        lemma_lines_prefix(v@, i + 1, k);
                        assert(lj[k] == li[k]);
                    }
                    lemma_first_uid_at(lines(v@), m);
                }
                return uid_line_verdict(&v, start, i);
            }
            start = i + 1;
            proof {
                assert(lj.last() =~= v@.subrange(start as int, i + 1));
                assert forall|k: int| 0 <= k < lj.len() - 1 implies !is_uid_line(#[trigger] lj[k]) by {
                    assert(lj[k] == li[k]);
                }
            }
        } else {
            proof {
                assert(lj.last() =~= v@.subrange(start as int, i + 1));
                assert forall|k: int| 0 <= k < lj.len() - 1 implies !is_uid_line(#[trigger] lj[k]) by {
                    assert(lj[k] == li[k]);
                }
            }
        }
        i = i + 1;
    }
    let n = v.len();
    proof {
        assert(v@.take(n as int) =~= v@);
    }
    if uid_line_at(&v, start, n) {
        proof {
            lemma_first_uid_at(lines(v@), lines(v@).len() - 1);
        }
        return uid_line_verdict(&v, start, n);
    }
    proof {
        lemma_first_uid_none(lines(v@));
    }
    false
}

/// Whether process `pid` is an unconfigured user app, as `cmdline`,
/// `status` and `threads` answered for it (`cl`, `st`, `th`): a user pid,
/// a `cmdline` naming an unconfigured app, a `status` of an app's uid, and
/// at least one thread.
pub open spec fn unknown_app_seen(
    pid: i32,
    set: Seq<String>,
    wild: Seq<String>,
    cl: Option<String>,
    st: Option<String>,
    th: Vec<(i32, String)>,
) -> bool {
    &&& pid >= MIN_USER_PID
    &&& cl matches Some(c) && first_arg(c@).len() > 0 && unconfigured_app(first_arg(c@), set, wild)
    &&& st matches Some(t) && app_status(t@)
    &&& th@.len() > 0
}

/// Whether `e` is the record of an unconfigured app found through the
/// readers `cmdline`, `status` and `threads`.
pub open spec fn unknown_entry<C, S, T>(
    pid: i32,
    pkg: String,
    th: Vec<(i32, String)>,
    set: Seq<String>,
    wild: Seq<String>,
    cmdline: C,
    status: S,
    threads: T,
) -> bool where C: Fn(i32) -> Option<String>, S: Fn(i32) -> Option<String>, T: Fn(i32) -> Vec<(i32, String)> {
    &&& threads.ensures((pid,), th)
    &&& exists|cl: Option<String>, st: Option<String>|
        #[trigger] cmdline.ensures((pid,), cl) && #[trigger] status.ensures((pid,), st)
            && unknown_app_seen(pid, set, wild, cl, st, th) && (cl matches Some(c) && pkg@ == first_arg(c@))
}

/// Whether process `pid` was passed over as no unconfigured app, by what
/// the readers answered for it.
pub open spec fn passed_over<C, S, T>(
    pid: i32,
    set: Seq<String>,
    wild: Seq<String>,
    cmdline: C,
    status: S,
    threads: T,
) -> bool where C: Fn(i32) -> Option<String>, S: Fn(i32) -> Option<String>, T: Fn(i32) -> Vec<(i32, String)> {
    ||| pid < MIN_USER_PID
    ||| exists|cl: Option<String>|
        #[trigger] cmdline.ensures((pid,), cl) && !(cl matches Some(c) && first_arg(c@).len() > 0
            && unconfigured_app(first_arg(c@), set, wild))
    ||| exists|st: Option<String>| #[trigger] status.ensures((pid,), st) && !(st matches Some(t) && app_status(t@))
    ||| exists|th: Vec<(i32, String)>| #[trigger] threads.ensures((pid,), th) && th@.len() == 0
}

/// Whether the records `r` come from the processes of `pids` at the
/// ascending positions `idx`, every process at another position having
/// been passed over.
pub open spec fn walk_order<C, S, T>(
    pids: Seq<i32>,
    r: Seq<(i32, String, Vec<(i32, String)>)>,
    idx: Seq<int>,
    set: Seq<String>,
    wild: Seq<String>,
    cmdline: C,
    status: S,
    threads: T,
) -> bool where C: Fn(i32) -> Option<String>, S: Fn(i32) -> Option<String>, T: Fn(i32) -> Vec<(i32, String)> {
    &&& idx.len() == r.len()
    &&& forall|k: int| 0 <= k < idx.len() ==> 0 <= #[trigger] idx[k] < pids.len() && r[k].0 == pids[idx[k]]
    &&& forall|a: int, b: int| 0 <= a < b < idx.len() ==> idx[a] < idx[b]
    &&& forall|i: int|
        0 <= i < pids.len() && !idx.contains(i) ==> #[trigger] passed_over(
            pids[i],
            set,
            wild,
            cmdline,
            status,
            threads,
        )
}

/// The running user apps that no rule covers, among the processes `pids`,
/// with their threads: for each pid in turn, `cmdline` reads its
/// `cmdline`, `status` its `status`, and `threads` lists its threads
/// (tid, name). A process is kept when it is an unconfigured app by
/// `unknown_app_seen`; each one is either kept, in the order of `pids`,
/// or passed over.
pub fn unknown_apps<C, S, T>(
    pids: &Vec<i32>,
    set: &Vec<String>,
    wild: &Vec<String>,
    cmdline: C,
    status: S,
    threads: T,
) -> (r: Vec<(i32, String, Vec<(i32, String)>)>) where
    C: Fn(i32) -> Option<String>,
    S: Fn(i32) -> Option<String>,
    T: Fn(i32) -> Vec<(i32, String)>,
    requires
        forall|p: i32| cmdline.requires((p,)),
        forall|p: i32| status.requires((p,)),
        forall|p: i32| threads.requires((p,)),
    ensures
        forall|k: int|
            0 <= k < r@.len() ==> unknown_entry(
                    (#[trigger] r@[k]).0,
                    r@[k].1,
                    r@[k].2,
                    set@,
                    wild@,
                    cmdline,
                    status,
                    threads,
                ),
        exists|idx: Seq<int>| #[trigger] walk_order(pids@, r@, idx, set@, wild@, cmdline, status, threads),
{
    let mut r: Vec<(i32, String, Vec<(i32, String)>)> = Vec::new();
    let ghost mut idx: Seq<int> = Seq::empty();
    let mut i: usize = 0;
    while i < pids.len()
        invariant
            i <= pids@.len(),
            forall|p: i32| cmdline.requires((p,)),
            forall|p: i32| status.requires((p,)),
            forall|p: i32| threads.requires((p,)),
            forall|k: int|
                0 <= k < r@.len() ==> unknown_entry(
                    (#[trigger] r@[k]).0,
                    r@[k].1,
                    r@[k].2,
                    set@,
                    wild@,
                    cmdline,
                    status,
                    threads,
                ),
            idx.len() == r@.len(),
            forall|k: int| 0 <= k < idx.len() ==> 0 <= #[trigger] idx[k] < i && r@[k].0 == pids@[idx[k]],
            forall|a: int, b: int| 0 <= a < b < idx.len() ==> idx[a] < idx[b],
            forall|j: int|
                0 <= j < i && !idx.contains(j) ==> #[trigger] passed_over(
                    pids@[j],
                    set@,
                    wild@,
                    cmdline,
                    status,
                    threads,
                ),
        decreases pids@.len() - i,
    {
        let pid = pids[i];
        let ghost idx0 = idx;
        let ghost r0 = r@;
        let mut keep = false;
        if pid >= MIN_USER_PID {
            let cl = cmdline(pid);
            let pkg = match &cl {
                Some(c) => cmdline_pkg(c.as_str()),
                None => None,
            };
            match pkg {
                Some(pkg) => {
                    if is_unconfigured_app(pkg.as_str(), set, wild) {
                        let st = status(pid);
                        let app = match &st {
                            Some(t) => is_app_status(t.as_str()),
                            None => false,
                        };
                        if app {
                            let th = threads(pid);
                            if th.len() > 0 {
                                assert(unknown_entry(pid, pkg, th, set@, wild@, cmdline, status, threads));
                                r.push((pid, pkg, th));
                                proof {
                                    idx = idx.push(i as int);
                                }
                                keep = true;
                            } else {
                                assert(passed_over(pid, set@, wild@, cmdline, status, threads));
                            }
                        } else {
                            assert(passed_over(pid, set@, wild@, cmdline, status, threads));
                        }
                    } else {
                        assert(passed_over(pid, set@, wild@, cmdline, status, threads));
                    }
                },
                None => {
                    assert(passed_over(pid, set@, wild@, cmdline, status, threads));
                },
            }
        }
        proof {
            if keep {
                assert forall|k: int| 0 <= k < r@.len() implies unknown_entry(
                    (#[trigger] r@[k]).0,
                    r@[k].1,
                    r@[k].2,
                    set@,
                    wild@,
                    cmdline,
                    status,
                    threads,
                ) by {
                    if k < r0.len() {
                        assert(r@[k] == r0[k]);
                    }
                }
            }
            assert forall|j: int|
                0 <= j < i + 1 && !idx.contains(j) implies #[trigger] passed_over(
                pids@[j],
                set@,
                wild@,
                cmdline,
                status,
                threads,
            ) by {
                if j < i {
                    if idx0.contains(j) {
                        let k = choose|k: int| 0 <= k < idx0.len() && idx0[k] == j;
                        assert(idx[k] == j);
                    }
                } else if keep {
                    assert(idx[idx.len() - 1] == j);
                }
            }
        }
        i = i + 1;
    }
    assert(walk_order(pids@, r@, idx, set@, wild@, cmdline, status, threads));
    r
}

} // verus!
