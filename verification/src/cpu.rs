//! CPU cluster detection: grouping CPUs by their maximum frequency, ordering
//! the groups, and naming the big, middle and little clusters.
use vstd::prelude::*;

use crate::cpulist::{
    collect_runs, cpu_list, last_number, last_list_number, parse_cpu_list, render, render_runs,
    run_text, runs, split_fields,
};
use crate::text::{chars_of, decimal, parse_u64_at, parse_unsigned, push_char, push_decimal, trim, trim_bounds};

verus! {

/// CPUs that share one maximum frequency.
pub struct Cluster {
    pub freq: u64,
    pub cpus: Vec<usize>,
}

/// A cluster as plain values: its frequency and its CPUs.
pub open spec fn cluster_view(c: Cluster) -> (u64, Seq<usize>) {
    (c.freq, c.cpus@)
}

/// Clusters as plain values.
pub open spec fn clusters_view(v: Seq<Cluster>) -> Seq<(u64, Seq<usize>)> {
    v.map_values(|c: Cluster| cluster_view(c))
}

/// A CPU list as text, the way the topology log prints it: runs of
/// consecutive CPUs as `a-b`, joined by `,`; no CPU at all prints as `0`.
pub open spec fn cpus_text(s: Seq<usize>) -> Seq<char> {
    if s.len() == 0 {
        seq!['0']
    } else {
        render_runs(runs(s))
    }
}

/// The maximum frequency that a `cpuinfo_max_freq` file names, once trimmed.
pub open spec fn freq_of(text: Seq<char>) -> Option<nat> {
    parse_unsigned(trim(text), u64::MAX as nat)
}

/// `cls` with `cpu` added to the first cluster of frequency `freq`, or with
/// a new cluster for it at the end.
pub open spec fn add_cpu(cls: Seq<(u64, Seq<usize>)>, freq: u64, cpu: usize) -> Seq<
    (u64, Seq<usize>),
>
    decreases cls.len(),
{
    if cls.len() == 0 {
        seq![(freq, seq![cpu])]
    } else if cls[0].0 == freq {
        cls.update(0, (freq, cls[0].1.push(cpu)))
    } else {
        seq![cls[0]] + add_cpu(cls.drop_first(), freq, cpu)
    }
}

/// `s` with `x` placed after every element whose frequency is at least
/// that of `x`, scanning from the end: one step of a stable sort by
/// descending frequency.
pub open spec fn insert_desc(s: Seq<(u64, Seq<usize>)>, x: (u64, Seq<usize>)) -> Seq<
    (u64, Seq<usize>),
>
    decreases s.len(),
{
    if s.len() == 0 {
        seq![x]
    } else if s.last().0 >= x.0 {
        s.push(x)
    } else {
        insert_desc(s.drop_last(), x).push(s.last())
    }
}

/// `s` stably sorted by descending frequency, as `sort_by` orders it.
pub open spec fn sort_desc(s: Seq<(u64, Seq<usize>)>) -> Seq<(u64, Seq<usize>)>
    decreases s.len(),
{
    if s.len() == 0 {
        s
    } else {
        insert_desc(sort_desc(s.drop_last()), s.last())
    }
}

/// The CPUs below `n` that `known` does not hold, ascending.
pub open spec fn missing_below(known: Seq<usize>, n: nat) -> Seq<usize>
    decreases n,
{
    if n == 0 {
        Seq::empty()
    } else {
        missing_below(known, (n - 1) as nat) + (if known.contains((n - 1) as usize) {
            Seq::empty()
        } else {
            seq![(n - 1) as usize]
        })
    }
}

/// The number of CPUs that a `present` mask implies: one more than its
/// last number, 0 if none parses (the addition wraps at `usize::MAX`).
pub open spec fn present_total(present: Seq<char>) -> nat {
    let last = match last_number(split_fields(present, true)) {
        Some(n) => n,
        None => 0,
    };
    if last == usize::MAX {
        0
    } else {
        last + 1
    }
}

/// When fewer than two clusters were found but `present` counts more CPUs
/// than the one cluster holds, the CPUs it lacks become a cluster of their
/// own, ranked above it (offline big cores).
pub open spec fn split_offline(cls: Seq<(u64, Seq<usize>)>, present: Seq<char>) -> Seq<
    (u64, Seq<usize>),
> {
    if cls.len() == 1 {
        let cur = cls[0].1;
        let total = present_total(present);
        let extra = missing_below(cur, total);
        if total > cur.len() && cur.len() > 0 && extra.len() > 0 {
            seq![(1u64, extra), (0u64, cur)]
        } else {
            cls
        }
    } else {
        cls
    }
}

/// The cluster sizes joined by `+` (`1+3+4`).
pub open spec fn sizes_text(cls: Seq<(u64, Seq<usize>)>) -> Seq<char>
    decreases cls.len(),
{
    if cls.len() == 0 {
        Seq::empty()
    } else if cls.len() == 1 {
        decimal(cls[0].1.len())
    } else {
        sizes_text(cls.drop_last()) + seq!['+'] + decimal(cls.last().1.len())
    }
}

/// The (big, mid1, mid2, little, sizes) texts of clusters ordered from the
/// fastest: big is the first, little the last, mid1 the second when there
/// are at least three, mid2 the third when there are at least four.
pub open spec fn layout_text(cls: Seq<(u64, Seq<usize>)>) -> (
    Seq<char>,
    Seq<char>,
    Seq<char>,
    Seq<char>,
    Seq<char>,
) {
    if cls.len() == 0 {
        (seq!['0'], Seq::empty(), Seq::empty(), seq!['0'], seq!['1'])
    } else {
        (
            cpus_text(cls[0].1),
            if cls.len() >= 3 {
                cpus_text(cls[1].1)
            } else {
                Seq::empty()
            },
            if cls.len() >= 4 {
                cpus_text(cls[2].1)
            } else {
                Seq::empty()
            },
            cpus_text(cls.last().1),
            sizes_text(cls),
        )
    }
}

/// The cluster layout that detection reports for the clusters found and
/// the `present` mask: the clusters stably sorted by descending frequency,
/// then split by `split_offline`, then named by `layout_text`.
pub open spec fn topology_text(cls: Seq<(u64, Seq<usize>)>, present: Seq<char>) -> (
    Seq<char>,
    Seq<char>,
    Seq<char>,
    Seq<char>,
    Seq<char>,
) {
    layout_text(split_offline(sort_desc(cls), present))
}

/// A CPU list as text: `0-3,5`; an empty list gives `0`.
pub fn fmt_cpus(cpus: &[usize]) -> (r: String)
    ensures
        r@ == cpus_text(cpus@),
{
    if cpus.len() == 0 {
        let mut r = String::new();
        push_char(&mut r, '0');
        return r;
    }
    let rs = collect_runs(cpus);
    render(&rs)
}

/// The cluster of one cpufreq policy, from the texts of its `related_cpus`
/// and `cpuinfo_max_freq` files: none when the frequency does not parse or
/// the CPU list names no CPU.
pub fn policy_cluster(related: &str, max_freq: &str) -> (r: Option<Cluster>)
    ensures
        match freq_of(max_freq@) {
            Some(f) => if cpu_list(trim(related@)).len() > 0 {
                r matches Some(c) && c.freq == f && c.cpus@ == cpu_list(trim(related@))
            } else {
                r is None
            },
            None => r is None,
        },
{
    let fv = chars_of(max_freq);
    let (a, b) = trim_bounds(&fv, 0, fv.len());
    assert(fv@.subrange(0, fv@.len() as int) =~= fv@);
    let freq = match parse_u64_at(&fv, a, b) {
        Some(f) => f,
        None => {
            return None;
        },
    };
    let rv = chars_of(related);
    let (c, d) = trim_bounds(&rv, 0, rv.len());
    assert(rv@.subrange(0, rv@.len() as int) =~= rv@);
    let trimmed = crate::text::string_of(&rv, c, d);
    let cpus = parse_cpu_list(trimmed.as_str());
    if cpus.len() == 0 {
        None
    } else {
        Some(Cluster { freq, cpus })
    }
}

/// Adds `cpu` to the cluster of the frequency that `max_freq` names (the
/// text of its `cpuinfo_max_freq` file), or starts a new cluster; a text
/// that does not parse leaves `cls` unchanged.
pub fn cluster_add(cls: &mut Vec<Cluster>, max_freq: &str, cpu: usize)
    ensures
        match freq_of(max_freq@) {
            Some(f) => clusters_view(final(cls)@) == add_cpu(
                clusters_view(old(cls)@),
                f as u64,
                cpu,
            ),
            None => final(cls)@ == old(cls)@,
        },
{
    let fv = chars_of(max_freq);
    let (a, b) = trim_bounds(&fv, 0, fv.len());
    assert(fv@.subrange(0, fv@.len() as int) =~= fv@);
    let freq = match parse_u64_at(&fv, a, b) {
        Some(f) => f,
        None => {
            return ;
        },
    };
    let ghost orig = clusters_view(cls@);
    let mut k: usize = 0;
    while k < cls.len()
        invariant
            k <= cls@.len(),
            cls@ == old(cls)@,
            orig == clusters_view(cls@),
            orig == clusters_view(old(cls)@),
            freq_of(max_freq@) == Some(freq as nat),
            forall|j: int| 0 <= j < k ==> cls@[j].freq != freq,
        decreases cls@.len() - k,
    {
        if cls[k].freq == freq {
            let Cluster { freq: f, cpus: mut cpus } = cls.remove(k);
            cpus.push(cpu);
            cls.insert(k, Cluster { freq: f, cpus });
            proof {
                lemma_add_cpu_at(orig, freq, cpu, k as int);
                assert(clusters_view(cls@) =~= orig.update(
                    k as int,
                    (freq, orig[k as int].1.push(cpu)),
                ));
            }
            return ;
        }
        k = k + 1;
    }
    let mut one: Vec<usize> = Vec::new();
    one.push(cpu);
    cls.push(Cluster { freq, cpus: one });
    proof {
        lemma_add_cpu_none(orig, freq, cpu);
        assert(clusters_view(cls@) =~= orig.push((freq, seq![cpu])));
    }
}

proof fn lemma_add_cpu_at(cls: Seq<(u64, Seq<usize>)>, freq: u64, cpu: usize, k: int)
    requires
        0 <= k < cls.len(),
        cls[k].0 == freq,
        forall|j: int| 0 <= j < k ==> cls[j].0 != freq,
    ensures
        add_cpu(cls, freq, cpu) == cls.update(k, (freq, cls[k].1.push(cpu))),
    decreases k,
{
    if k > 0 {
        lemma_add_cpu_at(cls.drop_first(), freq, cpu, k - 1);
        assert(seq![cls[0]] + cls.drop_first().update(
            k - 1,
            (freq, cls[k].1.push(cpu)),
        ) =~= cls.update(k, (freq, cls[k].1.push(cpu))));
    }
}

proof fn lemma_add_cpu_none(cls: Seq<(u64, Seq<usize>)>, freq: u64, cpu: usize)
    requires
        forall|j: int| 0 <= j < cls.len() ==> cls[j].0 != freq,
    ensures
        add_cpu(cls, freq, cpu) == cls.push((freq, seq![cpu])),
    decreases cls.len(),
{
    if cls.len() > 0 {
        lemma_add_cpu_none(cls.drop_first(), freq, cpu);
        assert(seq![cls[0]] + cls.drop_first().push((freq, seq![cpu])) =~= cls.push(
            (freq, seq![cpu]),
        ));
    }
}

proof fn lemma_insert_desc_at(s: Seq<(u64, Seq<usize>)>, x: (u64, Seq<usize>), p: int)
    requires
        0 <= p <= s.len(),
        forall|j: int| p <= j < s.len() ==> s[j].0 < x.0,
        p > 0 ==> s[p - 1].0 >= x.0,
    ensures
        insert_desc(s, x) == s.insert(p, x),
    decreases s.len(),
{
    if s.len() == 0 {
        assert(s.insert(p, x) =~= seq![x]);
    } else if p == s.len() {
        assert(s.insert(p, x) =~= s.push(x));
    } else {
        lemma_insert_desc_at(s.drop_last(), x, p);
        assert(s.drop_last().insert(p, x).push(s.last()) =~= s.insert(p, x));
    }
}

/// The clusters stably sorted by descending frequency.
pub fn sort_clusters(cls: Vec<Cluster>) -> (out: Vec<Cluster>)
    ensures
        clusters_view(out@) == sort_desc(clusters_view(cls@)),
{
    let ghost all = clusters_view(cls@);
    let mut rest = cls;
    let mut out: Vec<Cluster> = Vec::new();
    let ghost mut i: int = 0;
    proof {
        assert(all.take(0) =~= Seq::<(u64, Seq<usize>)>::empty());
        assert(all.skip(0) =~= all);
    }
    while rest.len() > 0
        invariant
            0 <= i <= all.len(),
            clusters_view(rest@) == all.skip(i),
            clusters_view(out@) == sort_desc(all.take(i)),
        decreases rest@.len(),
    {
        let ghost rest_before = rest@;
        assert(clusters_view(rest_before).len() == rest_before.len());
        assert(clusters_view(rest_before)[0] == cluster_view(rest_before[0]));
        let x = rest.remove(0);
        let ghost xv = cluster_view(x);
        let ghost before = clusters_view(out@);
        assert(xv == all[i]);
        let mut p = out.len();
        while p > 0 && out[p - 1].freq < x.freq
            invariant
                p <= out@.len(),
                before == clusters_view(out@),
                forall|j: int| p <= j < out@.len() ==> out@[j].freq < x.freq,
            decreases p,
        {
            p = p - 1;
        }
        out.insert(p, x);
        proof {
            lemma_insert_desc_at(before, xv, p as int);
            assert(clusters_view(out@) =~= before.insert(p as int, xv));
            assert(all.take(i + 1).drop_last() =~= all.take(i));
            assert(all.take(i + 1).last() == all[i]);
            assert(rest@ =~= rest_before.drop_first());
            assert(clusters_view(rest@) =~= clusters_view(rest_before).drop_first());
            assert(all.skip(i).drop_first() =~= all.skip(i + 1));
            i = i + 1;
        }
    }
    proof {
        assert(all.take(i) =~= all);
    }
    out
}

/// Whether `v` holds `x`.
pub fn vec_contains(v: &Vec<usize>, x: usize) -> (r: bool)
    ensures
        r == v@.contains(x),
{
    let mut i: usize = 0;
    while i < v.len()
        invariant
            i <= v@.len(),
            forall|j: int| 0 <= j < i ==> v@[j] != x,
        decreases v@.len() - i,
    {
        if v[i] == x {
            return true;
        }
        i = i + 1;
    }
    false
}

/// The CPUs below `n` that `known` lacks, ascending.
fn missing_cpus(known: &Vec<usize>, n: usize) -> (r: Vec<usize>)
    ensures
        r@ == missing_below(known@, n as nat),
{
    let mut r: Vec<usize> = Vec::new();
    let mut c: usize = 0;
    while c < n
        invariant
            c <= n,
            r@ == missing_below(known@, c as nat),
        decreases n - c,
    {
        if !vec_contains(known, c) {
            r.push(c);
        }
        c = c + 1;
        assert(r@ =~= missing_below(known@, c as nat));
    }
    r
}

/// The number of CPUs that a `present` mask implies.
fn total_present(present: &str) -> (r: usize)
    ensures
        r == present_total(present@),
{
    match last_list_number(present) {
        Some(n) => if n == usize::MAX {
            0
        } else {
            n + 1
        },
        None => 1,
    }
}

/// Applies `split_offline` to sorted clusters.
fn split_offline_clusters(cls: Vec<Cluster>, present: &str) -> (out: Vec<Cluster>)
    ensures
        clusters_view(out@) == split_offline(clusters_view(cls@), present@),
{
    let mut cls = cls;
    if cls.len() != 1 {
        return cls;
    }
    let known = cls[0].cpus.len();
    let total = total_present(present);
    if total > known && known > 0 {
        let extra = missing_cpus(&cls[0].cpus, total);
        if extra.len() > 0 {
            let cur = cls.remove(0);
            let ghost curv = cur.cpus@;
            let ghost extrav = extra@;
            cls.push(Cluster { freq: 1, cpus: extra });
            cls.push(Cluster { freq: 0, cpus: cur.cpus });
            assert(clusters_view(cls@) =~= seq![(1u64, extrav), (0u64, curv)]);
        }
    }
    cls
}

/// The cluster sizes joined by `+`.
fn sizes_string(cls: &Vec<Cluster>) -> (r: String)
    ensures
        r@ == sizes_text(clusters_view(cls@)),
{
    let ghost all = clusters_view(cls@);
    let mut r = String::new();
    let mut j: usize = 0;
    assert(all.take(0) =~= Seq::<(u64, Seq<usize>)>::empty());
    while j < cls.len()
        invariant
            j <= cls@.len(),
            all == clusters_view(cls@),
            r@ == sizes_text(all.take(j as int)),
        decreases cls@.len() - j,
    {
        assert(all.take(j + 1).drop_last() =~= all.take(j as int));
        if j > 0 {
            push_char(&mut r, '+');
        }
        push_decimal(&mut r, cls[j].cpus.len() as u64);
        j = j + 1;
        assert(r@ =~= sizes_text(all.take(j as int)));
    }
    assert(all.take(cls@.len() as int) =~= all);
    r
}

/// One-character string.
fn one_char(c: char) -> (r: String)
    ensures
        r@ == seq![c],
{
    let mut r = String::new();
    push_char(&mut r, c);
    assert(r@ =~= seq![c]);
    r
}

/// The (big, mid1, mid2, little, sizes) texts of the clusters found on a
/// device and its `present` mask, per `topology_text`: clusters are ranked
/// by descending maximum frequency; with two clusters both middle texts are
/// empty, with three only mid1 is set, with four both are.
pub fn topology(cls: Vec<Cluster>, present: &str) -> (r: (String, String, String, String, String))
    ensures
        (r.0@, r.1@, r.2@, r.3@, r.4@) == topology_text(clusters_view(cls@), present@),
{
    let sorted = sort_clusters(cls);
    let cls = split_offline_clusters(sorted, present);
    let n = cls.len();
    if n == 0 {
        return (one_char('0'), String::new(), String::new(), one_char('0'), one_char('1'));
    }
    let big = fmt_cpus(cls[0].cpus.as_slice());
    let mid1 = if n >= 3 {
        fmt_cpus(cls[1].cpus.as_slice())
    } else {
        String::new()
    };
    let mid2 = if n >= 4 {
        fmt_cpus(cls[2].cpus.as_slice())
    } else {
        String::new()
    };
    let little = fmt_cpus(cls[n - 1].cpus.as_slice());
    let sizes = sizes_string(&cls);
    (big, mid1, mid2, little, sizes)
}

/// The cluster layout of a device: the clusters of its cpufreq policies
/// when there are at least two, else the clusters that `per_cpu` builds
/// from each CPU's own maximum frequency (asked for only then); named by
/// `topology` against the `present` mask.
pub fn detect_layout<F>(policy: Vec<Cluster>, per_cpu: F, present: &str) -> (r: (
    String,
    String,
    String,
    String,
    String,
)) where F: Fn() -> Vec<Cluster>
    requires
        per_cpu.requires(()),
    ensures
        policy@.len() >= 2 ==> (r.0@, r.1@, r.2@, r.3@, r.4@) == topology_text(
            clusters_view(policy@),
            present@,
        ),
        policy@.len() < 2 ==> exists|c: Vec<Cluster>|
            #[trigger] per_cpu.ensures((), c) && (r.0@, r.1@, r.2@, r.3@, r.4@) == topology_text(
                clusters_view(c@),
                present@,
            ),
{
    if policy.len() < 2 {
        let c = per_cpu();
        topology(c, present)
    } else {
        topology(policy, present)
    }
}

proof fn lemma_missing_below_props(known: Seq<usize>, n: nat)
    requires
        n <= usize::MAX as nat + 1,
    ensures
        ascending(missing_below(known, n)),
        forall|k: int|
            0 <= k < missing_below(known, n).len() ==> #[trigger] missing_below(known, n)[k] < n,
        forall|c: usize|
            #[trigger] missing_below(known, n).contains(c) <==> (c < n && !known.contains(c)),
    decreases n,
{
    if n > 0 {
        let m0 = missing_below(known, (n - 1) as nat);
        lemma_missing_below_props(known, (n - 1) as nat);
        let m = missing_below(known, n);
        let x = (n - 1) as usize;
        if known.contains(x) {
            assert(m =~= m0);
        } else {
            assert(m =~= m0.push(x));
            assert(x as int == n - 1);
            assert(ascending(m)) by {
                assert forall|p: int, q: int| 0 <= p < q < m.len() implies m[p] < m[q] by {
                    if q == m.len() - 1 {
                        assert(m[p] == m0[p]);
                        assert(m0[p] < n - 1);
                    } else {
                        assert(m[p] == m0[p] && m[q] == m0[q]);
                    }
                }
            }
            assert forall|c: usize| #[trigger] m.contains(c) <==> (c < n && !known.contains(c)) by {
                if m.contains(c) && c != x {
                    let k = choose|k: int| 0 <= k < m.len() && m[k] == c;
                    assert(k != m.len() - 1);
                    assert(m0[k] == c);
                    assert(m0.contains(c));
                }
                if c < n && !known.contains(c) && c != x {
                    assert(m0.contains(c));
                    let k = choose|k: int| 0 <= k < m0.len() && m0[k] == c;
                    assert(m[k] == c);
                }
                if c == x {
                    assert(m[m.len() - 1] == x);
                    assert(m.contains(c));
                }
                if m0.contains(c) {
                    let k = choose|k: int| 0 <= k < m0.len() && m0[k] == c;
                    assert(m[k] == c);
                }
            }
        }
    }
}

proof fn lemma_ascending_unique(a: Seq<usize>, b: Seq<usize>)
    requires
        ascending(a),
        ascending(b),
        forall|c: usize| a.contains(c) <==> b.contains(c),
    ensures
        a == b,
    decreases a.len() + b.len(),
{
    if a.len() == 0 {
        if b.len() > 0 {
            assert(b.contains(b[0]));
        }
        assert(a =~= b);
    } else if b.len() == 0 {
        assert(a.contains(a[0]));
    } else {
        let x = a.last();
        let y = b.last();
        assert(a.contains(x));
        assert(b.contains(y));
        let i = choose|i: int| 0 <= i < b.len() && b[i] == x;
        let j = choose|j: int| 0 <= j < a.len() && a[j] == y;
        assert(x <= y) by {
            if i < b.len() - 1 {
                assert(b[i] < b[b.len() - 1]);
            }
        }
        assert(y <= x) by {
            if j < a.len() - 1 {
                assert(a[j] < a[a.len() - 1]);
            }
        }
        let da = a.drop_last();
        let db = b.drop_last();
        assert(ascending(da)) by {
            assert forall|p: int, q: int| 0 <= p < q < da.len() implies da[p] < da[q] by {
                assert(da[p] == a[p] && da[q] == a[q]);
            }
        }
        assert(ascending(db)) by {
            assert forall|p: int, q: int| 0 <= p < q < db.len() implies db[p] < db[q] by {
                assert(db[p] == b[p] && db[q] == b[q]);
            }
        }
        assert forall|c: usize| da.contains(c) <==> db.contains(c) by {
            if da.contains(c) {
                let k = choose|k: int| 0 <= k < da.len() && da[k] == c;
                assert(a[k] == c && a[k] < x);
                assert(b.contains(c));
                let k2 = choose|k2: int| 0 <= k2 < b.len() && b[k2] == c;
                assert(k2 != b.len() - 1);
                assert(db[k2] == c);
            }
            if db.contains(c) {
                let k = choose|k: int| 0 <= k < db.len() && db[k] == c;
                assert(b[k] == c && b[k] < y);
                assert(a.contains(c));
                let k2 = choose|k2: int| 0 <= k2 < a.len() && a[k2] == c;
                assert(k2 != a.len() - 1);
                assert(da[k2] == c);
            }
        }
        lemma_ascending_unique(da, db);
        assert(a =~= da.push(x));
        assert(b =~= db.push(y));
    }
}

/// Offline big cores are split off by the `present` mask: when detection
/// found a single cluster of CPUs `known` (of any frequency) and `present`
/// implies more CPUs than it holds, the CPUs below that count that it lacks
/// (`missing`, ascending) form the big cluster above it, however many they
/// are, and the layout reads (missing, none, none, known, "|missing|+|known|").
pub proof fn lemma_offline_cores_split(freq: u64, known: Seq<usize>, present: Seq<char>, missing: Seq<usize>)
    requires
        known.len() > 0,
        present_total(present) > known.len(),
        missing.len() > 0,
        ascending(missing),
        forall|c: usize| missing.contains(c) <==> (c < present_total(present) && !known.contains(c)),
    ensures
        topology_text(seq![(freq, known)], present) == (
            cpus_text(missing),
            Seq::<char>::empty(),
            Seq::<char>::empty(),
            cpus_text(known),
            decimal(missing.len()) + seq!['+'] + decimal(known.len()),
        ),
{
    let one = seq![(freq, known)];
    assert(one.drop_last() =~= Seq::<(u64, Seq<usize>)>::empty());
    assert(sort_desc(one.drop_last()) =~= Seq::<(u64, Seq<usize>)>::empty());
    assert(sort_desc(one) == insert_desc(sort_desc(one.drop_last()), one.last()));
    assert(sort_desc(one) =~= one);
    let total = present_total(present);
    crate::cpulist::lemma_last_number_bound(split_fields(present, true));
    assert(total <= usize::MAX);
    let extra = missing_below(known, total);
    lemma_missing_below_props(known, total);
    lemma_ascending_unique(extra, missing);
    let split = seq![(1u64, extra), (0u64, known)];
    assert(split_offline(one, present) == split);
    assert(split.drop_last() =~= seq![(1u64, extra)]);
    assert(sizes_text(split.drop_last()) == decimal(extra.len()));
}

/// Whether `s` is ordered by descending frequency.
pub open spec fn sorted_desc(s: Seq<(u64, Seq<usize>)>) -> bool {
    forall|i: int, j: int| 0 <= i < j < s.len() ==> s[i].0 >= s[j].0
}

proof fn lemma_insert_desc_multiset(s: Seq<(u64, Seq<usize>)>, x: (u64, Seq<usize>))
    ensures
        insert_desc(s, x).to_multiset() == s.to_multiset().insert(x),
    decreases s.len(),
{
    broadcast use vstd::seq_lib::group_to_multiset_ensures;

    if s.len() > 0 && s.last().0 < x.0 {
        let d = s.drop_last();
        lemma_insert_desc_multiset(d, x);
        assert(s =~= d.push(s.last()));
        assert(insert_desc(s, x).to_multiset() =~= s.to_multiset().insert(x));
    }
}

proof fn lemma_insert_desc_sorted(s: Seq<(u64, Seq<usize>)>, x: (u64, Seq<usize>))
    requires
        sorted_desc(s),
    ensures
        sorted_desc(insert_desc(s, x)),
    decreases s.len(),
{
    broadcast use vstd::seq_lib::group_to_multiset_ensures;

    if s.len() > 0 && s.last().0 < x.0 {
        let d = s.drop_last();
        let last = s.last();
        assert(sorted_desc(d));
        lemma_insert_desc_sorted(d, x);
        lemma_insert_desc_multiset(d, x);
        let m = insert_desc(d, x);
        assert forall|k: int| 0 <= k < m.len() implies m[k].0 >= last.0 by {
            assert(m.contains(m[k]));
            assert(m.to_multiset().count(m[k]) > 0);
            if m[k] != x {
                assert(d.to_multiset().count(m[k]) > 0);
                assert(d.contains(m[k]));
                let j = choose|j: int| 0 <= j < d.len() && d[j] == m[k];
                assert(s[j] == d[j]);
            }
        }
        let r = m.push(last);
        assert forall|i: int, j: int| 0 <= i < j < r.len() implies r[i].0 >= r[j].0 by {
            if j < m.len() {
                assert(r[i] == m[i] && r[j] == m[j]);
            } else {
                assert(r[i] == m[i]);
            }
        }
    }
}

/// Sorting by descending frequency orders the clusters from the fastest
/// to the slowest and keeps every cluster, as often as it occurs.
pub proof fn lemma_sort_desc(s: Seq<(u64, Seq<usize>)>)
    ensures
        sorted_desc(sort_desc(s)),
        sort_desc(s).to_multiset() == s.to_multiset(),
    decreases s.len(),
{
    broadcast use vstd::seq_lib::group_to_multiset_ensures;

    if s.len() > 0 {
        let d = s.drop_last();
        lemma_sort_desc(d);
        lemma_insert_desc_sorted(sort_desc(d), s.last());
        lemma_insert_desc_multiset(sort_desc(d), s.last());
        assert(s =~= d.push(s.last()));
    }
}

/// The CPU list text of a non-empty list of CPUs (as detection reports a
/// cluster) parses back to that list: a rule written with it binds the
/// same CPUs.
pub proof fn lemma_cpus_text_roundtrip(cpus: Seq<usize>)
    requires
        cpus.len() > 0,
    ensures
        cpu_list(cpus_text(cpus)) == cpus,
{
    crate::cpulist::lemma_cpu_list_roundtrip(cpus);
}

/// Whether `s` is strictly ascending.
pub open spec fn ascending(s: Seq<usize>) -> bool {
    forall|i: int, j: int| 0 <= i < j < s.len() ==> s[i] < s[j]
}

proof fn lemma_runs_gaps(s: Seq<usize>)
    requires
        ascending(s),
    ensures
        s.len() > 0 ==> runs(s).len() > 0 && runs(s).last().1 == s.last(),
        forall|k: int|
            0 <= k < runs(s).len() - 1 ==> #[trigger] runs(s)[k].1 + 1 < runs(s)[k + 1].0,
    decreases s.len(),
{
    if s.len() > 0 {
        let d = s.drop_last();
        assert(ascending(d)) by {
            assert forall|i: int, j: int| 0 <= i < j < d.len() implies d[i] < d[j] by {
                assert(d[i] == s[i] && d[j] == s[j]);
            }
        }
        lemma_runs_gaps(d);
        let r = runs(d);
        let x = s.last();
        let rs = runs(s);
        if r.len() > 0 && r.last().1 + 1 == x {
            assert forall|k: int| 0 <= k < rs.len() - 1 implies #[trigger] rs[k].1 + 1 < rs[k + 1].0 by {
                assert(rs[k] == r[k]);
                if k + 1 < r.len() - 1 {
                    assert(rs[k + 1] == r[k + 1]);
                }
            }
        } else {
            if r.len() > 0 {
                assert(d.last() == s[s.len() - 2]);
                assert(s[s.len() - 2] < x);
            }
            assert forall|k: int| 0 <= k < rs.len() - 1 implies #[trigger] rs[k].1 + 1 < rs[k + 1].0 by {
                assert(rs[k] == r[k]);
                if k + 1 < r.len() {
                    assert(rs[k + 1] == r[k + 1]);
                }
            }
        }
    }
}

proof fn lemma_render_split(rs: Seq<(usize, usize)>)
    requires
        rs.len() > 0,
        crate::cpulist::runs_ok(rs),
    ensures
        split_fields(render_runs(rs), false) == rs.map_values(|r: (usize, usize)| run_text(r)),
        forall|i: int| 0 <= i < render_runs(rs).len() ==> #[trigger] render_runs(rs)[i] != ' ',
    decreases rs.len(),
{
    let last = rs.last();
    crate::cpulist::lemma_run_text(last);
    let t = run_text(last);
    assert(forall|i: int| 0 <= i < t.len() ==> !crate::cpulist::is_sep(#[trigger] t[i], false));
    if rs.len() == 1 {
        crate::cpulist::lemma_split_nosep(t, false);
        assert(rs.map_values(|r: (usize, usize)| run_text(r)) =~= seq![t]);
    } else {
        let d = rs.drop_last();
        assert(crate::cpulist::runs_ok(d)) by {
            assert forall|i: int| 0 <= i < d.len() implies (#[trigger] d[i]).0 <= d[i].1 by {
                assert(d[i] == rs[i]);
            }
        }
        lemma_render_split(d);
        crate::cpulist::lemma_split_concat(render_runs(d), t);
        assert(rs.map_values(|r: (usize, usize)| run_text(r)) =~= d.map_values(
            |r: (usize, usize)| run_text(r),
        ).push(t));
        let a = render_runs(d);
        let whole = render_runs(rs);
        assert(whole =~= a + seq![','] + t);
        assert forall|i: int| 0 <= i < whole.len() implies #[trigger] whole[i] != ' ' by {
            if i < a.len() {
                assert(whole[i] == a[i]);
            } else if i > a.len() {
                assert(whole[i] == t[i - a.len() - 1]);
            }
        }
    }
}

/// The text of an ascending, non-empty list of CPUs is made of its maximal
/// runs of consecutive CPUs, in ascending order: split at `,`, its parts are
/// the runs' texts (`a`, or `a-b` with `a < b`); the runs, expanded in
/// order, give the list back; between two runs at least one CPU is
/// missing; and the text holds no space.
pub proof fn lemma_cpus_text_runs(cpus: Seq<usize>)
    requires
        cpus.len() > 0,
        ascending(cpus),
    ensures
        ({
            let rs = runs(cpus);
            &&& rs.len() > 0
            &&& split_fields(cpus_text(cpus), false) == rs.map_values(|r: (usize, usize)| run_text(r))
            &&& forall|k: int| 0 <= k < rs.len() ==> (#[trigger] rs[k]).0 <= rs[k].1
            &&& forall|k: int| 0 <= k < rs.len() ==> (#[trigger] run_text(rs[k])) == (if rs[k].0
                == rs[k].1 {
                decimal(rs[k].0 as nat)
            } else {
                decimal(rs[k].0 as nat) + seq!['-'] + decimal(rs[k].1 as nat)
            })
            &&& crate::cpulist::expand(rs) == cpus
            &&& forall|k: int| 0 <= k < rs.len() - 1 ==> #[trigger] rs[k].1 + 1 < rs[k + 1].0
            &&& forall|i: int| 0 <= i < cpus_text(cpus).len() ==> #[trigger] cpus_text(cpus)[i] != ' '
        }),
{
    crate::cpulist::lemma_runs_expand(cpus);
    lemma_runs_gaps(cpus);
    lemma_render_split(runs(cpus));
}

} // verus!
