//! Which CPUs a thread is bound to: the union of the CPUs of every thread
//! rule of its package whose pattern matches the thread's name, else the
//! package's fallback rules, else no binding at all.
use vstd::prelude::*;

use crate::config::{names_hold, list_has, rule_view, rules_view, AppConfig, Rule};
use crate::cpuset::{cpuset_dir_for, dir_text, from_range, lemma_mask_finite, list_mask, CpuSet, CpuTopology};
use crate::fnmatch::{fnmatch, glob};
use crate::text::str_eq;

verus! {

/// The outcome of rule matching for one thread.
pub struct AffinityResult {
    pub cpus: CpuSet,
    pub cpuset_dir: String,
    pub is_thread_rule: bool,
}

/// Whether `r` is a thread rule of `pkg` whose pattern matches `thread`.
pub open spec fn thread_hit(r: Rule, pkg: Seq<char>, thread: Seq<char>) -> bool {
    r.pkg@ == pkg && r.thread@.len() > 0 && glob(r.thread@, thread)
}

/// Whether `r` is a fallback rule (one without a thread pattern) of `pkg`.
pub open spec fn fallback_of(r: Rule, pkg: Seq<char>) -> bool {
    r.pkg@ == pkg && r.thread@.len() == 0
}

/// Whether some rule of `rules` is a thread rule of `pkg` matching `thread`.
pub open spec fn any_hit(rules: Seq<Rule>, pkg: Seq<char>, thread: Seq<char>) -> bool {
    exists|i: int| 0 <= i < rules.len() && thread_hit(#[trigger] rules[i], pkg, thread)
}

/// The union of the CPUs of the thread rules of `pkg` matching `thread`.
pub open spec fn hits_mask(rules: Seq<Rule>, pkg: Seq<char>, thread: Seq<char>) -> Set<usize>
    decreases rules.len(),
{
    if rules.len() == 0 {
        Set::empty()
    } else {
        hits_mask(rules.drop_last(), pkg, thread) + (if thread_hit(rules.last(), pkg, thread) {
            list_mask(rules.last().cpus@)
        } else {
            Set::empty()
        })
    }
}

/// The number of fallback rules of `pkg`.
pub open spec fn fallback_count(rules: Seq<Rule>, pkg: Seq<char>) -> nat
    decreases rules.len(),
{
    if rules.len() == 0 {
        0
    } else {
        fallback_count(rules.drop_last(), pkg) + (if fallback_of(rules.last(), pkg) {
            1nat
        } else {
            0nat
        })
    }
}

/// The union of the CPUs of the fallback rules of `pkg`.
pub open spec fn fallback_mask(rules: Seq<Rule>, pkg: Seq<char>) -> Set<usize>
    decreases rules.len(),
{
    if rules.len() == 0 {
        Set::empty()
    } else {
        fallback_mask(rules.drop_last(), pkg) + (if fallback_of(rules.last(), pkg) {
            list_mask(rules.last().cpus@)
        } else {
            Set::empty()
        })
    }
}

/// The cpuset group a rule names, or the one made for its CPUs.
pub open spec fn own_dir(r: Rule, topo: CpuTopology) -> Seq<char> {
    if r.cpuset_dir@.len() == 0 {
        dir_text(list_mask(r.cpus@), topo)
    } else {
        r.cpuset_dir@
    }
}

/// The cpuset group of the fallback binding: that of the only fallback
/// rule of `pkg`; none when there are several (they are merged).
pub open spec fn fallback_dir(rules: Seq<Rule>, pkg: Seq<char>, topo: CpuTopology) -> Seq<char>
    decreases rules.len(),
{
    if rules.len() == 0 {
        Seq::empty()
    } else if fallback_of(rules.last(), pkg) {
        if fallback_count(rules.drop_last(), pkg) == 0 {
            own_dir(rules.last(), topo)
        } else {
            Seq::empty()
        }
    } else {
        fallback_dir(rules.drop_last(), pkg, topo)
    }
}

/// The binding of thread `thread` of package `pkg` as (CPUs, cpuset group,
/// from a thread rule): none for a package on the asoul list; the union of
/// the matching thread rules when the name is known and some match; else
/// the union of the fallback rules; and none when that union is empty.
pub open spec fn affinity_of(cfg: AppConfig, topo: CpuTopology, pkg: Seq<char>, thread: Seq<char>) -> Option<
    (Set<usize>, Seq<char>, bool),
> {
    if names_hold(cfg.asoul_ignore@, pkg) {
        None
    } else {
        let matched = thread.len() > 0 && any_hit(cfg.rules@, pkg, thread);
        let mask = if matched {
            hits_mask(cfg.rules@, pkg, thread)
        } else {
            fallback_mask(cfg.rules@, pkg)
        };
        let dir = if matched {
            dir_text(mask, topo)
        } else {
            fallback_dir(cfg.rules@, pkg, topo)
        };
        if mask == Set::<usize>::empty() {
            None
        } else {
            Some((mask, dir, matched))
        }
    }
}

/// Whether `r` answers `affinity_of`'s value `a`.
pub open spec fn result_is(r: Option<AffinityResult>, a: Option<(Set<usize>, Seq<char>, bool)>) -> bool {
    match a {
        None => r is None,
        Some(t) => r matches Some(x) && x.cpus@ == t.0 && x.cpuset_dir@ == t.1 && x.is_thread_rule
            == t.2,
    }
}

/// The mask that a rule's CPU list names.
fn cpuset_from_rule(rule: &Rule) -> (r: CpuSet)
    ensures
        r@ == list_mask(rule.cpus@),
{
    from_range(rule.cpus.as_str())
}

proof fn lemma_fallback_mask_empty(rules: Seq<Rule>, pkg: Seq<char>)
    requires
        fallback_count(rules, pkg) == 0,
    ensures
        fallback_mask(rules, pkg) == Set::<usize>::empty(),
    decreases rules.len(),
{
    if rules.len() > 0 {
        lemma_fallback_mask_empty(rules.drop_last(), pkg);
        assert(fallback_mask(rules, pkg) =~= Set::<usize>::empty());
    }
}

proof fn lemma_hits_mask_empty(rules: Seq<Rule>, pkg: Seq<char>, thread: Seq<char>)
    requires
        !any_hit(rules, pkg, thread),
    ensures
        hits_mask(rules, pkg, thread) == Set::<usize>::empty(),
    decreases rules.len(),
{
    if rules.len() > 0 {
        let d = rules.drop_last();
        assert forall|k: int| 0 <= k < d.len() && thread_hit(#[trigger] d[k], pkg, thread)
            implies any_hit(rules, pkg, thread) by {
            assert(rules[k] == d[k]);
        }
        lemma_hits_mask_empty(d, pkg, thread);
        assert(!thread_hit(rules[rules.len() - 1], pkg, thread));
        assert(hits_mask(rules, pkg, thread) =~= Set::<usize>::empty());
    }
}

/// The binding of thread `thread` of package `pkg`; see `affinity_of`.
pub fn thread_affinity(pkg: &str, thread: &str, cfg: &AppConfig, topo: &CpuTopology) -> (r: Option<
    AffinityResult,
>)
    ensures
        result_is(r, affinity_of(*cfg, *topo, pkg@, thread@)),
{
    if list_has(&cfg.asoul_ignore, pkg) {
        return None;
    }
    let ghost rules = cfg.rules@;
    let mut cpus = CpuSet::new();
    let mut cpuset_dir = String::new();
    let mut matched = false;
    if !thread.is_empty() {
        let mut i: usize = 0;
        assert(rules.take(0) =~= Seq::<Rule>::empty());
        while i < cfg.rules.len()
            invariant
                i <= rules.len(),
                rules == cfg.rules@,
                cpus@ == hits_mask(rules.take(i as int), pkg@, thread@),
                matched == any_hit(rules.take(i as int), pkg@, thread@),
            decreases rules.len() - i,
        {
            let rule = &cfg.rules[i];
            let ghost t0 = rules.take(i as int);
            let ghost t1 = rules.take(i + 1);
            assert(t1.drop_last() =~= t0);
            assert(t1.last() == rules[i as int]);
            if str_eq(rule.pkg.as_str(), pkg) && !rule.thread.as_str().is_empty() && fnmatch(
                rule.thread.as_str(),
                thread,
            ) {
                let m = cpuset_from_rule(rule);
                cpus.or(&m);
                matched = true;
                assert(thread_hit(t1[i as int], pkg@, thread@));
            } else {
                assert(hits_mask(t1, pkg@, thread@) =~= hits_mask(t0, pkg@, thread@));
                assert forall|k: int| 0 <= k < t1.len() && thread_hit(#[trigger] t1[k], pkg@, thread@)
                    implies any_hit(t0, pkg@, thread@) by {
                    assert(t0[k] == t1[k]);
                }
            }
            if matched {
                assert forall|k: int| 0 <= k < t0.len() && thread_hit(#[trigger] t0[k], pkg@, thread@)
                    implies any_hit(t1, pkg@, thread@) by {
                    assert(t1[k] == t0[k]);
                }
            }
            i = i + 1;
        }
        assert(rules.take(rules.len() as int) =~= rules);
        if matched {
            cpuset_dir = cpuset_dir_for(&cpus, topo);
        }
    }
    if !matched {
        proof {
            if thread@.len() > 0 {
                lemma_hits_mask_empty(rules, pkg@, thread@);
            }
            assert(cpus@ =~= Set::<usize>::empty());
        }
        let mut fallback_seen = false;
        let mut i: usize = 0;
        assert(rules.take(0) =~= Seq::<Rule>::empty());
        while i < cfg.rules.len()
            invariant
                i <= rules.len(),
                rules == cfg.rules@,
                cpus@ == fallback_mask(rules.take(i as int), pkg@),
                cpuset_dir@ == fallback_dir(rules.take(i as int), pkg@, *topo),
                fallback_seen == (fallback_count(rules.take(i as int), pkg@) > 0),
            decreases rules.len() - i,
        {
            let rule = &cfg.rules[i];
            let ghost t0 = rules.take(i as int);
            let ghost t1 = rules.take(i + 1);
            assert(t1.drop_last() =~= t0);
            assert(t1.last() == rules[i as int]);
            if str_eq(rule.pkg.as_str(), pkg) && rule.thread.as_str().is_empty() {
                let m = cpuset_from_rule(rule);
                proof {
                    if !fallback_seen {
                        lemma_fallback_mask_empty(t0, pkg@);
                    }
                }
                cpus.or(&m);
                if !fallback_seen {
                    assert(cpus@ =~= m@);
                    cpuset_dir = if rule.cpuset_dir.as_str().is_empty() {
                        cpuset_dir_for(&cpus, topo)
                    } else {
                        rule.cpuset_dir.clone()
                    };
                    fallback_seen = true;
                } else {
                    cpuset_dir = String::new();
                }
            }
            i = i + 1;
        }
        assert(rules.take(rules.len() as int) =~= rules);
    }
    proof {
        lemma_mask_finite(cpus);
    }
    if cpus.count() == 0 {
        None
    } else {
        Some(AffinityResult { cpus, cpuset_dir, is_thread_rule: matched })
    }
}

proof fn lemma_hit_in_mask(rules: Seq<Rule>, pkg: Seq<char>, thread: Seq<char>, i: int)
    requires
        0 <= i < rules.len(),
        thread_hit(rules[i], pkg, thread),
    ensures
        list_mask(rules[i].cpus@).subset_of(hits_mask(rules, pkg, thread)),
    decreases rules.len(),
{
    let d = rules.drop_last();
    if i < rules.len() - 1 {
        assert(d[i] == rules[i]);
        lemma_hit_in_mask(d, pkg, thread, i);
    }
}

/// The CPUs of matching thread rules accumulate: when a thread rule of
/// `pkg` whose pattern matches `thread` names some CPU, the thread is bound
/// by its thread rules, to at least that rule's CPUs.
pub proof fn lemma_matching_rules_accumulate(
    cfg: AppConfig,
    topo: CpuTopology,
    pkg: Seq<char>,
    thread: Seq<char>,
    i: int,
)
    requires
        !names_hold(cfg.asoul_ignore@, pkg),
        thread.len() > 0,
        0 <= i < cfg.rules@.len(),
        thread_hit(cfg.rules@[i], pkg, thread),
        list_mask(cfg.rules@[i].cpus@) != Set::<usize>::empty(),
    ensures
        affinity_of(cfg, topo, pkg, thread) matches Some(a) && a.2 && list_mask(
            cfg.rules@[i].cpus@,
        ).subset_of(a.0),
{
    let rules = cfg.rules@;
    assert(any_hit(rules, pkg, thread));
    lemma_hit_in_mask(rules, pkg, thread, i);
    if hits_mask(rules, pkg, thread) == Set::<usize>::empty() {
        assert(list_mask(rules[i].cpus@) =~= Set::<usize>::empty());
    }
}

/// Whether the rule lists `a` and `b` hold the same thread rules of `pkg`
/// (taken by their values), whatever else they hold.
pub open spec fn same_thread_rules(a: Seq<Rule>, b: Seq<Rule>, pkg: Seq<char>) -> bool {
    forall|v: (Seq<char>, Seq<char>, Seq<char>, Seq<char>)|
        v.0 == pkg && v.1.len() > 0 ==> (rules_view(a).contains(v) <==> rules_view(b).contains(v))
}

/// Whether the rule lists `a` and `b` hold the same rules (taken by their
/// values), whatever their order and repeats.
pub open spec fn same_rule_values(a: Seq<Rule>, b: Seq<Rule>) -> bool {
    forall|v: (Seq<char>, Seq<char>, Seq<char>, Seq<char>)|
        rules_view(a).contains(v) <==> rules_view(b).contains(v)
}

proof fn lemma_view_at(rules: Seq<Rule>, i: int)
    requires
        0 <= i < rules.len(),
    ensures
        rules_view(rules).contains(rule_view(rules[i])),
{
    assert(rules_view(rules)[i] == rule_view(rules[i]));
}

proof fn lemma_view_member(rules: Seq<Rule>, v: (Seq<char>, Seq<char>, Seq<char>, Seq<char>)) -> (j: int)
    requires
        rules_view(rules).contains(v),
    ensures
        0 <= j < rules.len(),
        rule_view(rules[j]) == v,
{
    let j = choose|j: int| 0 <= j < rules_view(rules).len() && rules_view(rules)[j] == v;
    j
}

proof fn lemma_hits_char(rules: Seq<Rule>, pkg: Seq<char>, thread: Seq<char>, c: usize)
    ensures
        hits_mask(rules, pkg, thread).contains(c) <==> exists|i: int|
            0 <= i < rules.len() && thread_hit(#[trigger] rules[i], pkg, thread) && list_mask(
                rules[i].cpus@,
            ).contains(c),
    decreases rules.len(),
{
    if rules.len() > 0 {
        let d = rules.drop_last();
        lemma_hits_char(d, pkg, thread, c);
        if hits_mask(d, pkg, thread).contains(c) {
            let i = choose|i: int|
                0 <= i < d.len() && thread_hit(#[trigger] d[i], pkg, thread) && list_mask(
                    d[i].cpus@,
                ).contains(c);
            assert(rules[i] == d[i]);
        }
        if exists|i: int|
            0 <= i < rules.len() && thread_hit(#[trigger] rules[i], pkg, thread) && list_mask(
                rules[i].cpus@,
            ).contains(c) {
            let i = choose|i: int|
                0 <= i < rules.len() && thread_hit(#[trigger] rules[i], pkg, thread) && list_mask(
                    rules[i].cpus@,
                ).contains(c);
            if i < rules.len() - 1 {
                assert(d[i] == rules[i]);
            }
        }
    }
}

proof fn lemma_fallback_char(rules: Seq<Rule>, pkg: Seq<char>, c: usize)
    ensures
        fallback_mask(rules, pkg).contains(c) <==> exists|i: int|
            0 <= i < rules.len() && fallback_of(#[trigger] rules[i], pkg) && list_mask(
                rules[i].cpus@,
            ).contains(c),
    decreases rules.len(),
{
    if rules.len() > 0 {
        let d = rules.drop_last();
        lemma_fallback_char(d, pkg, c);
        if fallback_mask(d, pkg).contains(c) {
            let i = choose|i: int|
                0 <= i < d.len() && fallback_of(#[trigger] d[i], pkg) && list_mask(d[i].cpus@).contains(c);
            assert(rules[i] == d[i]);
        }
        if exists|i: int|
            0 <= i < rules.len() && fallback_of(#[trigger] rules[i], pkg) && list_mask(
                rules[i].cpus@,
            ).contains(c) {
            let i = choose|i: int|
                0 <= i < rules.len() && fallback_of(#[trigger] rules[i], pkg) && list_mask(
                    rules[i].cpus@,
                ).contains(c);
            if i < rules.len() - 1 {
                assert(d[i] == rules[i]);
            }
        }
    }
}

proof fn lemma_hits_transfer(a: Seq<Rule>, b: Seq<Rule>, pkg: Seq<char>, thread: Seq<char>)
    requires
        same_thread_rules(a, b, pkg),
    ensures
        any_hit(a, pkg, thread) ==> any_hit(b, pkg, thread),
        hits_mask(a, pkg, thread).subset_of(hits_mask(b, pkg, thread)),
{
    if any_hit(a, pkg, thread) {
        let i = choose|i: int| 0 <= i < a.len() && thread_hit(#[trigger] a[i], pkg, thread);
        lemma_view_at(a, i);
        let j = lemma_view_member(b, rule_view(a[i]));
        assert(thread_hit(b[j], pkg, thread));
    }
    assert forall|c: usize| hits_mask(a, pkg, thread).contains(c) implies hits_mask(
        b,
        pkg,
        thread,
    ).contains(c) by {
        lemma_hits_char(a, pkg, thread, c);
        lemma_hits_char(b, pkg, thread, c);
        let i = choose|i: int|
            0 <= i < a.len() && thread_hit(#[trigger] a[i], pkg, thread) && list_mask(
                a[i].cpus@,
            ).contains(c);
        lemma_view_at(a, i);
        let j = lemma_view_member(b, rule_view(a[i]));
        assert(thread_hit(b[j], pkg, thread));
    }
}

/// The thread rules of a package decide alone when one matches the thread
/// and they name some CPU: adding, removing or reordering any other rule,
/// the package's fallback rules among them, leaves the binding as it is.
pub proof fn lemma_fallback_rules_irrelevant(
    cfg: AppConfig,
    cfg2: AppConfig,
    topo: CpuTopology,
    pkg: Seq<char>,
    thread: Seq<char>,
)
    requires
        cfg2.asoul_ignore@ == cfg.asoul_ignore@,
        thread.len() > 0,
        any_hit(cfg.rules@, pkg, thread),
        hits_mask(cfg.rules@, pkg, thread) != Set::<usize>::empty(),
        same_thread_rules(cfg.rules@, cfg2.rules@, pkg),
    ensures
        affinity_of(cfg2, topo, pkg, thread) == affinity_of(cfg, topo, pkg, thread),
{
    let a = cfg.rules@;
    let b = cfg2.rules@;
    lemma_hits_transfer(a, b, pkg, thread);
    lemma_hits_transfer(b, a, pkg, thread);
    assert(hits_mask(a, pkg, thread) =~= hits_mask(b, pkg, thread));
}

proof fn lemma_fallback_count_pos(rules: Seq<Rule>, pkg: Seq<char>, i: int)
    requires
        0 <= i < rules.len(),
        fallback_of(rules[i], pkg),
    ensures
        fallback_count(rules, pkg) >= 1,
    decreases rules.len(),
{
    if i < rules.len() - 1 {
        let d = rules.drop_last();
        assert(d[i] == rules[i]);
        lemma_fallback_count_pos(d, pkg, i);
    }
}

proof fn lemma_fallback_some(rules: Seq<Rule>, pkg: Seq<char>) -> (i: int)
    requires
        fallback_count(rules, pkg) >= 1,
    ensures
        0 <= i < rules.len(),
        fallback_of(rules[i], pkg),
    decreases rules.len(),
{
    let d = rules.drop_last();
    if fallback_of(rules.last(), pkg) {
        rules.len() - 1
    } else {
        let i = lemma_fallback_some(d, pkg);
        assert(rules[i] == d[i]);
        i
    }
}

proof fn lemma_fallback_dir_char(rules: Seq<Rule>, pkg: Seq<char>, topo: CpuTopology)
    ensures
        fallback_count(rules, pkg) != 1 ==> fallback_dir(rules, pkg, topo) == Seq::<char>::empty(),
        forall|i: int|
            0 <= i < rules.len() && fallback_count(rules, pkg) == 1 && fallback_of(#[trigger] rules[i], pkg)
                ==> fallback_dir(rules, pkg, topo) == own_dir(rules[i], topo),
    decreases rules.len(),
{
    if rules.len() > 0 {
        let d = rules.drop_last();
        lemma_fallback_dir_char(d, pkg, topo);
        assert forall|i: int|
            0 <= i < rules.len() && fallback_count(rules, pkg) == 1 && fallback_of(#[trigger] rules[i], pkg)
            implies fallback_dir(rules, pkg, topo) == own_dir(rules[i], topo) by {
            if i < rules.len() - 1 {
                assert(d[i] == rules[i]);
                lemma_fallback_count_pos(d, pkg, i);
            }
        }
    }
}

proof fn lemma_count_remove(rules: Seq<Rule>, pkg: Seq<char>, j: int)
    requires
        0 <= j < rules.len(),
    ensures
        fallback_count(rules, pkg) == fallback_count(rules.remove(j), pkg) + (if fallback_of(rules[j], pkg) {
            1nat
        } else {
            0nat
        }),
    decreases rules.len(),
{
    let d = rules.drop_last();
    if j == rules.len() - 1 {
        assert(rules.remove(j) =~= d);
    } else {
        lemma_count_remove(d, pkg, j);
        let r = rules.remove(j);
        assert(r.drop_last() =~= d.remove(j));
        assert(r.last() == rules.last());
        assert(d[j] == rules[j]);
    }
}

proof fn lemma_count_perm(s: Seq<Rule>, t: Seq<Rule>, pkg: Seq<char>)
    requires
        s.to_multiset() == t.to_multiset(),
    ensures
        fallback_count(s, pkg) == fallback_count(t, pkg),
    decreases s.len(),
{
    vstd::seq_lib::to_multiset_len(s);
    vstd::seq_lib::to_multiset_len(t);
    if s.len() == 0 {
        assert(t =~= Seq::<Rule>::empty());
    } else {
        let n = s.len() - 1;
        let x = s[n];
        vstd::seq_lib::to_multiset_contains(s, x);
        vstd::seq_lib::to_multiset_contains(t, x);
        assert(s.contains(x));
        let j = choose|j: int| 0 <= j < t.len() && t[j] == x;
        vstd::seq_lib::to_multiset_remove(s, n);
        vstd::seq_lib::to_multiset_remove(t, j);
        assert(s.remove(n) =~= s.drop_last());
        lemma_count_perm(s.drop_last(), t.remove(j), pkg);
        lemma_count_remove(t, pkg, j);
    }
}

/// The order of the rules does not matter: a configuration whose rules are
/// a reordering of another's binds every thread as the other does (the
/// CPUs are a union, and the cpuset group depends only on that union or on
/// a package's only fallback rule).
pub proof fn lemma_rule_order_irrelevant(
    cfg: AppConfig,
    cfg2: AppConfig,
    topo: CpuTopology,
    pkg: Seq<char>,
    thread: Seq<char>,
)
    requires
        cfg2.asoul_ignore@ == cfg.asoul_ignore@,
        cfg2.rules@.to_multiset() == cfg.rules@.to_multiset(),
    ensures
        affinity_of(cfg2, topo, pkg, thread) == affinity_of(cfg, topo, pkg, thread),
{
    let a = cfg.rules@;
    let b = cfg2.rules@;
    assert(same_rule_values(a, b)) by {
        assert forall|v: (Seq<char>, Seq<char>, Seq<char>, Seq<char>)| rules_view(a).contains(v) implies rules_view(
            b,
        ).contains(v) by {
            let i = lemma_view_member(a, v);
            vstd::seq_lib::to_multiset_contains(a, a[i]);
            vstd::seq_lib::to_multiset_contains(b, a[i]);
            assert(a.contains(a[i]));
            let j = choose|j: int| 0 <= j < b.len() && b[j] == a[i];
            lemma_view_at(b, j);
        }
        assert forall|v: (Seq<char>, Seq<char>, Seq<char>, Seq<char>)| rules_view(b).contains(v) implies rules_view(
            a,
        ).contains(v) by {
            let i = lemma_view_member(b, v);
            vstd::seq_lib::to_multiset_contains(a, b[i]);
            vstd::seq_lib::to_multiset_contains(b, b[i]);
            assert(b.contains(b[i]));
            let j = choose|j: int| 0 <= j < a.len() && a[j] == b[i];
            lemma_view_at(a, j);
        }
    }
    lemma_hits_transfer(a, b, pkg, thread);
    lemma_hits_transfer(b, a, pkg, thread);
    assert(hits_mask(a, pkg, thread) =~= hits_mask(b, pkg, thread));
    assert forall|c: usize| #[trigger] fallback_mask(a, pkg).contains(c) == fallback_mask(b, pkg).contains(c) by {
        lemma_fallback_char(a, pkg, c);
        lemma_fallback_char(b, pkg, c);
        if fallback_mask(a, pkg).contains(c) {
            let i = choose|i: int|
                0 <= i < a.len() && fallback_of(#[trigger] a[i], pkg) && list_mask(a[i].cpus@).contains(c);
            lemma_view_at(a, i);
            let j = lemma_view_member(b, rule_view(a[i]));
            assert(fallback_of(b[j], pkg));
        }
        if fallback_mask(b, pkg).contains(c) {
            let i = choose|i: int|
                0 <= i < b.len() && fallback_of(#[trigger] b[i], pkg) && list_mask(b[i].cpus@).contains(c);
            lemma_view_at(b, i);
            let j = lemma_view_member(a, rule_view(b[i]));
            assert(fallback_of(a[j], pkg));
        }
    }
    assert(fallback_mask(a, pkg) =~= fallback_mask(b, pkg));
    lemma_count_perm(b, a, pkg);
    lemma_fallback_dir_char(a, pkg, topo);
    lemma_fallback_dir_char(b, pkg, topo);
    if fallback_count(a, pkg) == 1 {
        let i = lemma_fallback_some(a, pkg);
        lemma_view_at(a, i);
        let j = lemma_view_member(b, rule_view(a[i]));
        assert(fallback_of(b[j], pkg));
        assert(own_dir(b[j], topo) == own_dir(a[i], topo));
    }
}

/// Packages on the asoul list are never bound, whatever the thread.
pub proof fn lemma_exempt_never_bound(cfg: AppConfig, topo: CpuTopology, pkg: Seq<char>, thread: Seq<char>)
    requires
        names_hold(cfg.asoul_ignore@, pkg),
    ensures
        affinity_of(cfg, topo, pkg, thread) is None,
{
}

/// A thread whose name no thread rule of its package matches gets the
/// package's fallback binding, as does every thread when its name is not
/// known.
pub proof fn lemma_unmatched_gets_fallback(cfg: AppConfig, topo: CpuTopology, pkg: Seq<char>, thread: Seq<char>)
    requires
        !names_hold(cfg.asoul_ignore@, pkg),
        thread.len() == 0 || !any_hit(cfg.rules@, pkg, thread),
        fallback_mask(cfg.rules@, pkg) != Set::<usize>::empty(),
    ensures
        affinity_of(cfg, topo, pkg, thread) == Some(
            (fallback_mask(cfg.rules@, pkg), fallback_dir(cfg.rules@, pkg, topo), false),
        ),
{
}

} // verus!
