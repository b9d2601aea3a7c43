//! The loaded configuration: binding rules, the packages of interest, the
//! packages left alone, and the CPU topology, with the lookups on them.
use vstd::prelude::*;

use crate::cpulist::index_of_from;
use crate::cpuset::CpuTopology;
use crate::fnmatch::{fnmatch, glob, is_literal};
use crate::procfs::{lemma_lines_step, lines};
use crate::text::{chars_of, str_eq, string_of, trim, trim_bounds};

verus! {

/// The longest thread or process name the kernel keeps (`comm`).
pub const COMM_LEN: usize = 15;

/// One binding rule: threads of `pkg` whose name matches the pattern
/// `thread` go to `cpus`; an empty `thread` makes it the package's
/// fallback rule. `cpuset_dir` names the cpuset group to use, if any.
pub struct Rule {
    pub pkg: String,
    pub thread: String,
    pub cpus: String,
    pub cpuset_dir: String,
}

/// The configuration in force.
pub struct AppConfig {
    pub rules: Vec<Rule>,
    /// Package names of interest.
    pub pkg_set: Vec<String>,
    /// Package patterns of interest.
    pub wild: Vec<String>,
    /// Packages that are never bound (the asoul game list).
    pub asoul_ignore: Vec<String>,
    pub topo: CpuTopology,
    pub ebpf: bool,
    pub auto_for_none: bool,
}

/// Whether `v` holds a string equal to `s`.
pub open spec fn names_hold(v: Seq<String>, s: Seq<char>) -> bool {
    exists|i: int| 0 <= i < v.len() && #[trigger] v[i]@ == s
}

/// A process name without its `:suffix` (`com.a:remote` gives `com.a`).
pub open spec fn base_pkg(pkg: Seq<char>) -> Seq<char> {
    let k = index_of_from(pkg, ':', 0);
    if k >= 0 {
        pkg.take(k)
    } else {
        pkg
    }
}

/// Whether the kernel name `comm` of a process stands for package `p`: it
/// is `p` itself, or, for a longer name, its first or last `COMM_LEN`
/// characters.
pub open spec fn comm_fits(p: Seq<char>, comm: Seq<char>) -> bool {
    comm.len() > 0 && (comm == p || (p.len() > COMM_LEN && (comm == p.take(COMM_LEN as int) || comm
        == p.skip(p.len() - COMM_LEN))))
}

/// The first package of `pkgs` that the kernel name `comm` stands for.
pub open spec fn comm_pkg(pkgs: Seq<String>, comm: Seq<char>) -> Option<Seq<char>>
    decreases pkgs.len(),
{
    if pkgs.len() == 0 {
        None
    } else if comm_fits(pkgs[0]@, comm) {
        Some(pkgs[0]@)
    } else {
        comm_pkg(pkgs.drop_first(), comm)
    }
}

/// Whether some pattern of `pats` matches `s`.
pub open spec fn some_pattern_matches(pats: Seq<String>, s: Seq<char>) -> bool {
    exists|i: int| 0 <= i < pats.len() && glob(#[trigger] pats[i]@, s)
}

impl AppConfig {
    /// Whether package `pkg` has a rule for named threads.
    pub open spec fn has_thread_rules(&self, pkg: Seq<char>) -> bool {
        exists|i: int|
            0 <= i < self.rules@.len() && #[trigger] self.rules@[i].pkg@ == pkg
                && self.rules@[i].thread@.len() > 0
    }

    /// Whether processes named `pkg` are of interest: the name or its base
    /// package is listed, or some package pattern matches the name.
    pub open spec fn interested(&self, pkg: Seq<char>) -> bool {
        names_hold(self.pkg_set@, pkg) || names_hold(self.pkg_set@, base_pkg(pkg))
            || some_pattern_matches(self.wild@, pkg)
    }

    /// Whether processes named `pkg` are left alone: the name or its base
    /// package is on the asoul list.
    pub open spec fn exempt(&self, pkg: Seq<char>) -> bool {
        names_hold(self.asoul_ignore@, pkg) || names_hold(self.asoul_ignore@, base_pkg(pkg))
    }

    /// Whether package `pkg` has a rule for named threads.
    pub fn pkg_has_thread_rules(&self, pkg: &str) -> (r: bool)
        ensures
            r == self.has_thread_rules(pkg@),
    {
        let mut i: usize = 0;
        while i < self.rules.len()
            invariant
                i <= self.rules@.len(),
                forall|k: int|
                    0 <= k < i ==> !(#[trigger] self.rules@[k].pkg@ == pkg@
                        && self.rules@[k].thread@.len() > 0),
            decreases self.rules@.len() - i,
        {
            let rule = &self.rules[i];
            if str_eq(rule.pkg.as_str(), pkg) && !rule.thread.as_str().is_empty() {
                return true;
            }
            i = i + 1;
        }
        false
    }

    /// Whether processes named `pkg` are of interest.
    pub fn pkg_interested(&self, pkg: &str) -> (r: bool)
        ensures
            r == self.interested(pkg@),
    {
        if list_has(&self.pkg_set, pkg) {
            return true;
        }
        let base = base_pkg_of(pkg);
        if list_has(&self.pkg_set, base.as_str()) {
            return true;
        }
        let mut i: usize = 0;
        while i < self.wild.len()
            invariant
                i <= self.wild@.len(),
                forall|k: int| 0 <= k < i ==> !glob(#[trigger] self.wild@[k]@, pkg@),
            decreases self.wild@.len() - i,
        {
            if fnmatch(self.wild[i].as_str(), pkg) {
                return true;
            }
            i = i + 1;
        }
        false
    }

    /// Whether processes named `pkg` are left alone.
    pub fn pkg_exempt(&self, pkg: &str) -> (r: bool)
        ensures
            r == self.exempt(pkg@),
    {
        if list_has(&self.asoul_ignore, pkg) {
            return true;
        }
        let base = base_pkg_of(pkg);
        list_has(&self.asoul_ignore, base.as_str())
    }

    /// The first listed package that the kernel name `comm` stands for.
    pub fn comm_to_pkg(&self, comm: &str) -> (r: Option<String>)
        ensures
            match comm_pkg(self.pkg_set@, comm@) {
                Some(p) => r matches Some(x) && x@ == p,
                None => r is None,
            },
    {
        let c = chars_of(comm);
        let mut i: usize = 0;
        assert(self.pkg_set@.skip(0) =~= self.pkg_set@);
        while i < self.pkg_set.len()
            invariant
                i <= self.pkg_set@.len(),
                c@ == comm@,
                comm_pkg(self.pkg_set@, comm@) == comm_pkg(self.pkg_set@.skip(i as int), comm@),
            decreases self.pkg_set@.len() - i,
        {
            let p = chars_of(self.pkg_set[i].as_str());
            assert(self.pkg_set@.skip(i as int)[0] == self.pkg_set@[i as int]);
            if fits_comm(&p, &c) {
                return Some(self.pkg_set[i].clone());
            }
            assert(self.pkg_set@.skip(i as int).drop_first() =~= self.pkg_set@.skip(i + 1));
            i = i + 1;
        }
        None
    }
}

/// Every rule of `pkg` that names a thread pattern, whatever wildcards the
/// pattern holds (`Render*`, `Thread-[0-9]`), makes it a package with
/// thread rules, so its threads are matched by name.
pub proof fn lemma_any_pattern_is_a_thread_rule(cfg: AppConfig, pkg: Seq<char>, i: int)
    requires
        0 <= i < cfg.rules@.len(),
        cfg.rules@[i].pkg@ == pkg,
        cfg.rules@[i].thread@.len() > 0,
    ensures
        cfg.has_thread_rules(pkg),
{
}

/// Whether `v` holds a string equal to `s`.
pub fn list_has(v: &Vec<String>, s: &str) -> (r: bool)
    ensures
        r == names_hold(v@, s@),
{
    let mut i: usize = 0;
    while i < v.len()
        invariant
            i <= v@.len(),
            forall|k: int| 0 <= k < i ==> #[trigger] v@[k]@ != s@,
        decreases v@.len() - i,
    {
        if str_eq(v[i].as_str(), s) {
            return true;
        }
        i = i + 1;
    }
    false
}

/// The base package of a process name.
pub fn base_pkg_of(pkg: &str) -> (r: String)
    ensures
        r@ == base_pkg(pkg@),
{
    let v = chars_of(pkg);
    let mut k: usize = 0;
    while k < v.len() && v[k] != ':'
        invariant
            k <= v@.len(),
            v@ == pkg@,
            index_of_from(v@, ':', 0) == index_of_from(v@, ':', k as int),
        decreases v@.len() - k,
    {
        k = k + 1;
    }
    if k < v.len() {
        string_of(&v, 0, k)
    } else {
        assert(v@.subrange(0, v@.len() as int) =~= v@);
        string_of(&v, 0, v.len())
    }
}

fn seq_eq_at(a: &Vec<char>, lo: usize, b: &Vec<char>) -> (r: bool)
    requires
        lo + b@.len() <= a@.len(),
    ensures
        r == (a@.subrange(lo as int, lo + b@.len()) == b@),
{
    let n = a.len();
    let mut i: usize = 0;
    while i < b.len()
        invariant
            i <= b@.len(),
            lo + b@.len() <= a@.len(),
            n == a@.len(),
            forall|k: int| 0 <= k < i ==> a@[lo + k] == b@[k],
        decreases b@.len() - i,
    {
        if a[lo + i] != b[i] {
            assert(a@.subrange(lo as int, lo + b@.len())[i as int] != b@[i as int]);
            return false;
        }
        i = i + 1;
    }
    assert(a@.subrange(lo as int, lo + b@.len()) =~= b@);
    true
}

/// Whether the kernel name `c` stands for the package `p`.
fn fits_comm(p: &Vec<char>, c: &Vec<char>) -> (r: bool)
    ensures
        r == comm_fits(p@, c@),
{
    if c.len() == 0 {
        return false;
    }
    if p.len() == c.len() && seq_eq_at(p, 0, c) {
        assert(p@.subrange(0, c@.len() as int) =~= p@);
        return true;
    }
    if p.len() > COMM_LEN && c.len() == COMM_LEN {
        if seq_eq_at(p, 0, c) {
            assert(p@.subrange(0, COMM_LEN as int) =~= p@.take(COMM_LEN as int));
            return true;
        }
        if seq_eq_at(p, p.len() - COMM_LEN, c) {
            assert(p@.subrange(p@.len() - COMM_LEN, p@.len() as int) =~= p@.skip(
                p@.len() - COMM_LEN,
            ));
            return true;
        }
        assert(p@.subrange(0, COMM_LEN as int) =~= p@.take(COMM_LEN as int));
        assert(p@.subrange(p@.len() - COMM_LEN, p@.len() as int) =~= p@.skip(
            p@.len() - COMM_LEN,
        ));
    }
    if p.len() == c.len() {
        assert(p@.subrange(0, c@.len() as int) =~= p@);
    }
    false
}

/// The names of a list file's lines: each line trimmed, blank lines left
/// out.
pub open spec fn listed_names(ls: Seq<Seq<char>>) -> Seq<Seq<char>>
    decreases ls.len(),
{
    if ls.len() == 0 {
        Seq::empty()
    } else {
        let r = listed_names(ls.drop_last());
        let t = trim(ls.last());
        if t.len() > 0 {
            r.push(t)
        } else {
            r
        }
    }
}

/// The names that a list file (one package per line, as the asoul game
/// list is written) holds.
pub open spec fn name_list(text: Seq<char>) -> Seq<Seq<char>> {
    listed_names(lines(text))
}

/// The names of a list file; see `name_list`.
pub fn parse_name_list(text: &str) -> (r: Vec<String>)
    ensures
        strings_view(r@) == name_list(text@),
{
    let v = chars_of(text);
    let mut out: Vec<String> = Vec::new();
    let mut start: usize = 0;
    let mut i: usize = 0;
    assert(v@.take(0) =~= Seq::<char>::empty());
    assert(lines(v@.take(0)).drop_last() =~= Seq::<Seq<char>>::empty());
    assert(v@.subrange(0, 0) =~= Seq::<char>::empty());
    while i < v.len()
        invariant
            v@ == text@,
            start <= i <= v@.len(),
            lines(v@.take(i as int)).len() > 0,
            lines(v@.take(i as int)).last() == v@.subrange(start as int, i as int),
            strings_view(out@) == listed_names(lines(v@.take(i as int)).drop_last()),
        decreases v@.len() - i,
    {
        proof {
            lemma_lines_step(v@, i as int);
        }
        let ghost li = lines(v@.take(i as int));
        let ghost lj = lines(v@.take(i + 1));
        if v[i] == '\n' {
            let (a, b) = trim_bounds(&v, start, i);
            let ghost o0 = out@;
            if a < b {
                let t = string_of(&v, a, b);
                out.push(t);
                assert(strings_view(out@) =~= strings_view(o0).push(t@));
            }
            proof {
                assert(lj.drop_last() =~= li);
            }
            start = i + 1;
            assert(lj.last() =~= v@.subrange(start as int, i + 1));
        } else {
            proof {
                assert(lj.drop_last() =~= li.drop_last());
                assert(lj.last() =~= v@.subrange(start as int, i + 1));
            }
        }
        i = i + 1;
    }
    let n = v.len();
    assert(v@.take(n as int) =~= v@);
    let (a, b) = trim_bounds(&v, start, n);
    let ghost o0 = out@;
    if a < b {
        let t = string_of(&v, a, b);
        out.push(t);
        assert(strings_view(out@) =~= strings_view(o0).push(t@));
    }
    out
}

/// The CPUs for threads of some names, as a configuration entry gives them.
pub struct CommRule {
    pub cpus: String,
    pub threads: Vec<String>,
}

/// One entry of the configuration file's `rules`: its packages (names or
/// patterns), the CPUs for all their threads (`other`, empty when absent),
/// and the CPUs for threads of given names (`comm`).
pub struct ConfigEntry {
    pub packages: Vec<String>,
    pub other: String,
    pub comm: Vec<CommRule>,
}

/// A rule as plain values: (package, thread pattern, CPU list, cpuset group).
pub open spec fn rule_view(r: Rule) -> (Seq<char>, Seq<char>, Seq<char>, Seq<char>) {
    (r.pkg@, r.thread@, r.cpus@, r.cpuset_dir@)
}

/// Rules as plain values.
pub open spec fn rules_view(v: Seq<Rule>) -> Seq<(Seq<char>, Seq<char>, Seq<char>, Seq<char>)> {
    v.map_values(|r: Rule| rule_view(r))
}

/// Strings as plain values.
pub open spec fn strings_view(v: Seq<String>) -> Seq<Seq<char>> {
    v.map_values(|s: String| s@)
}

/// The thread rules of package `pkg` for the names `threads` on `cpus`.
pub open spec fn thread_rules(pkg: Seq<char>, cpus: Seq<char>, threads: Seq<Seq<char>>) -> Seq<
    (Seq<char>, Seq<char>, Seq<char>, Seq<char>),
> {
    threads.map_values(|t: Seq<char>| (pkg, t, cpus, Seq::<char>::empty()))
}

/// The thread rules of package `pkg` for an entry's `comm` table.
pub open spec fn comm_rules(pkg: Seq<char>, comm: Seq<CommRule>) -> Seq<
    (Seq<char>, Seq<char>, Seq<char>, Seq<char>),
>
    decreases comm.len(),
{
    if comm.len() == 0 {
        Seq::empty()
    } else {
        comm_rules(pkg, comm.drop_last()) + thread_rules(
            pkg,
            comm.last().cpus@,
            strings_view(comm.last().threads@),
        )
    }
}

/// The rules of package `pkg` for an entry: its fallback rule (when the
/// entry names CPUs for all threads), then its thread rules.
pub open spec fn package_rules(pkg: Seq<char>, e: ConfigEntry) -> Seq<
    (Seq<char>, Seq<char>, Seq<char>, Seq<char>),
> {
    (if e.other@.len() > 0 {
        seq![(pkg, Seq::<char>::empty(), e.other@, Seq::<char>::empty())]
    } else {
        Seq::empty()
    }) + comm_rules(pkg, e.comm@)
}

/// The rules of an entry's first `n` packages.
pub open spec fn entry_rules(e: ConfigEntry, n: int) -> Seq<(Seq<char>, Seq<char>, Seq<char>, Seq<char>)>
    decreases n,
{
    if n <= 0 {
        Seq::empty()
    } else {
        entry_rules(e, n - 1) + package_rules(e.packages@[n - 1]@, e)
    }
}

/// The rules of a configuration's entries, in order.
pub open spec fn config_rules(entries: Seq<ConfigEntry>) -> Seq<
    (Seq<char>, Seq<char>, Seq<char>, Seq<char>),
>
    decreases entries.len(),
{
    if entries.len() == 0 {
        Seq::empty()
    } else {
        config_rules(entries.drop_last()) + entry_rules(
            entries.last(),
            entries.last().packages@.len() as int,
        )
    }
}

/// The packages (names, or patterns when `patterns`) of the first `n`
/// packages of an entry.
pub open spec fn entry_names(e: ConfigEntry, n: int, patterns: bool) -> Seq<Seq<char>>
    decreases n,
{
    if n <= 0 {
        Seq::empty()
    } else {
        let p = e.packages@[n - 1]@;
        entry_names(e, n - 1, patterns) + (if is_literal(p) != patterns {
            seq![p]
        } else {
            Seq::empty()
        })
    }
}

/// The package names (or patterns) of a configuration's entries, in order.
pub open spec fn config_names(entries: Seq<ConfigEntry>, patterns: bool) -> Seq<Seq<char>>
    decreases entries.len(),
{
    if entries.len() == 0 {
        Seq::empty()
    } else {
        config_names(entries.drop_last(), patterns) + entry_names(
            entries.last(),
            entries.last().packages@.len() as int,
            patterns,
        )
    }
}

fn rule_of(pkg: &String, thread: &String, cpus: &String) -> (r: Rule)
    ensures
        rule_view(r) == (pkg@, thread@, cpus@, Seq::<char>::empty()),
{
    Rule { pkg: pkg.clone(), thread: thread.clone(), cpus: cpus.clone(), cpuset_dir: String::new() }
}

fn has_wildcard(p: &str) -> (r: bool)
    ensures
        r == !is_literal(p@),
{
    let v = chars_of(p);
    let mut i: usize = 0;
    while i < v.len()
        invariant
            i <= v@.len(),
            v@ == p@,
            forall|k: int| 0 <= k < i ==> v@[k] != '*' && v@[k] != '?' && v@[k] != '[',
        decreases v@.len() - i,
    {
        if v[i] == '*' || v[i] == '?' || v[i] == '[' {
            return true;
        }
        i = i + 1;
    }
    false
}

/// Appends the rules of package `pkg` for entry `e`.
fn push_package_rules(rules: &mut Vec<Rule>, pkg: &String, e: &ConfigEntry)
    ensures
        rules_view(final(rules)@) == rules_view(old(rules)@) + package_rules(pkg@, *e),
{
    let ghost base = rules_view(rules@);
    let empty = String::new();
    if !e.other.as_str().is_empty() {
        rules.push(rule_of(pkg, &empty, &e.other));
    }
    let ghost after_other = rules_view(rules@);
    assert(after_other =~= base + (if e.other@.len() > 0 {
        seq![(pkg@, Seq::<char>::empty(), e.other@, Seq::<char>::empty())]
    } else {
        Seq::empty()
    }));
    let mut j: usize = 0;
    assert(e.comm@.take(0) =~= Seq::<CommRule>::empty());
    while j < e.comm.len()
        invariant
            j <= e.comm@.len(),
            rules_view(rules@) == after_other + comm_rules(pkg@, e.comm@.take(j as int)),
        decreases e.comm@.len() - j,
    {
        let cr = &e.comm[j];
        assert(e.comm@.take(j + 1).drop_last() =~= e.comm@.take(j as int));
        let ghost before = rules_view(rules@);
        let mut k: usize = 0;
        while k < cr.threads.len()
            invariant
                k <= cr.threads@.len(),
                rules_view(rules@) == before + thread_rules(
                    pkg@,
                    cr.cpus@,
                    strings_view(cr.threads@.take(k as int)),
                ),
            decreases cr.threads@.len() - k,
        {
            let ghost prev = rules@;
            let nr = rule_of(pkg, &cr.threads[k], &cr.cpus);
            rules.push(nr);
            proof {
                assert(rules_view(rules@) =~= rules_view(prev).push(rule_view(nr)));
                assert(strings_view(cr.threads@.take(k + 1)) =~= strings_view(
                    cr.threads@.take(k as int),
                ).push(cr.threads@[k as int]@));
            }
            k = k + 1;
            assert(rules_view(rules@) =~= before + thread_rules(
                pkg@,
                cr.cpus@,
                strings_view(cr.threads@.take(k as int)),
            ));
        }
        assert(cr.threads@.take(cr.threads@.len() as int) =~= cr.threads@);
        j = j + 1;
        assert(rules_view(rules@) =~= after_other + comm_rules(pkg@, e.comm@.take(j as int)));
    }
    assert(e.comm@.take(e.comm@.len() as int) =~= e.comm@);
    assert(rules_view(rules@) =~= base + package_rules(pkg@, *e));
}

impl AppConfig {
    /// The configuration of the file's entries: every package of every
    /// entry gets its entry's rules; package names go to `pkg_set` and
    /// package patterns to `wild`, in order.
    pub fn build(
        entries: &Vec<ConfigEntry>,
        asoul_ignore: Vec<String>,
        topo: CpuTopology,
        ebpf: bool,
        auto_for_none: bool,
    ) -> (r: AppConfig)
        ensures
            rules_view(r.rules@) == config_rules(entries@),
            strings_view(r.pkg_set@) == config_names(entries@, false),
            strings_view(r.wild@) == config_names(entries@, true),
            r.asoul_ignore@ == asoul_ignore@,
            r.topo == topo,
            r.ebpf == ebpf,
            r.auto_for_none == auto_for_none,
    {
        let mut rules: Vec<Rule> = Vec::new();
        let mut pkg_set: Vec<String> = Vec::new();
        let mut wild: Vec<String> = Vec::new();
        let mut i: usize = 0;
        assert(entries@.take(0) =~= Seq::<ConfigEntry>::empty());
        while i < entries.len()
            invariant
                i <= entries@.len(),
                rules_view(rules@) == config_rules(entries@.take(i as int)),
                strings_view(pkg_set@) == config_names(entries@.take(i as int), false),
                strings_view(wild@) == config_names(entries@.take(i as int), true),
            decreases entries@.len() - i,
        {
            let e = &entries[i];
            assert(entries@.take(i + 1).drop_last() =~= entries@.take(i as int));
            let ghost r0 = rules_view(rules@);
            let ghost p0 = strings_view(pkg_set@);
            let ghost w0 = strings_view(wild@);
            let mut k: usize = 0;
            while k < e.packages.len()
                invariant
                    k <= e.packages@.len(),
                    rules_view(rules@) == r0 + entry_rules(*e, k as int),
                    strings_view(pkg_set@) == p0 + entry_names(*e, k as int, false),
                    strings_view(wild@) == w0 + entry_names(*e, k as int, true),
                decreases e.packages@.len() - k,
            {
                let pkg = &e.packages[k];
                push_package_rules(&mut rules, pkg, e);
                let ghost pv = pkg_set@;
                let ghost wv = wild@;
                if has_wildcard(pkg.as_str()) {
                    let c = pkg.clone();
                    wild.push(c);
                    assert(strings_view(wild@) =~= strings_view(wv).push(pkg@));
                    assert(pkg_set@ == pv);
                } else {
                    let c = pkg.clone();
                    pkg_set.push(c);
                    assert(strings_view(pkg_set@) =~= strings_view(pv).push(pkg@));
                    assert(wild@ == wv);
                }
                k = k + 1;
                assert(rules_view(rules@) =~= r0 + entry_rules(*e, k as int));
                assert(strings_view(pkg_set@) =~= p0 + entry_names(*e, k as int, false));
                assert(strings_view(wild@) =~= w0 + entry_names(*e, k as int, true));
            }
            i = i + 1;
        }
        assert(entries@.take(entries@.len() as int) =~= entries@);
        AppConfig { rules, pkg_set, wild, asoul_ignore, topo, ebpf, auto_for_none }
    }
}

} // verus!
