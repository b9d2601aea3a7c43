//! The polling mode's incremental upkeep of the process cache: when to
//! rebuild it from `/proc`, which processes to look at, and what a rebuild
//! records.
use vstd::prelude::*;

use std::collections::HashSet;

use crate::config::AppConfig;
use crate::proccache::TaskEntry;
use crate::proccache::{name_seen, record_one, tasks_view, ProcCache};
use crate::rule_match::affinity_of;

verus! {

broadcast use vstd::std_specs::hash::group_hash_axioms;

/// The state of the polling mode between rounds.
pub struct ProcState {
    pub cache: ProcCache,
    pub last_proc_count: i32,
    pub scan_all_proc: bool,
    pub tracked_pids: HashSet<i32>,
    pub last_proc_total: i32,
    pub force_affinity: bool,
}

/// The thread table (as plain values) after the threads `threads` (tid,
/// kernel name) of process `pid` are recorded in order.
pub open spec fn record_all(
    tv: Map<i32, (i32, Set<usize>, Seq<char>, bool, bool)>,
    threads: Seq<(i32, Seq<char>)>,
    pid: i32,
    pkg: Seq<char>,
    has_thread_rules: bool,
    cfg: AppConfig,
) -> Map<i32, (i32, Set<usize>, Seq<char>, bool, bool)>
    decreases threads.len(),
{
    if threads.len() == 0 {
        tv
    } else {
        let t = threads.last();
        record_one(
            record_all(tv, threads.drop_last(), pid, pkg, has_thread_rules, cfg),
            t.0,
            pid,
            affinity_of(cfg, cfg.topo, pkg, name_seen(t.1, has_thread_rules, true)),
        )
    }
}

/// Whether the rules give some thread of `threads` a binding.
pub open spec fn any_bound(
    threads: Seq<(i32, Seq<char>)>,
    pkg: Seq<char>,
    has_thread_rules: bool,
    cfg: AppConfig,
) -> bool {
    exists|k: int|
        0 <= k < threads.len() && (affinity_of(
            cfg,
            cfg.topo,
            pkg,
            name_seen(#[trigger] threads[k].1, has_thread_rules, true),
        ) is Some)
}

/// Threads (tid, kernel name) as plain values.
pub open spec fn threads_view(v: Seq<(i32, String)>) -> Seq<(i32, Seq<char>)> {
    v.map_values(|t: (i32, String)| (t.0, t.1@))
}

/// What a rebuild saw of one process, when it records it: its package, whether
/// the package has thread rules, and its threads (tid, name as listed).
pub type Seen = Option<(Seq<char>, bool, Seq<(i32, Seq<char>)>)>;

/// Whether `o` is what a rebuild saw of process `pid`, given what the
/// readers answered: nothing when the process is not looked at (`wanted`
/// false), when `pkg_of` finds no package, when the package is left alone
/// or of no interest, or when `threads_of` lists no threads; else the
/// package, whether it has thread rules, and the threads, listed with their
/// names when it has.
pub open spec fn rebuild_seen<P, T>(pkg_of: P, threads_of: T, cfg: AppConfig, wanted: bool, pid: i32, o: Seen) -> bool where
    P: Fn(i32) -> Option<String>,
    T: Fn(i32, bool) -> Option<Vec<(i32, String)>>,
 {
    if !wanted {
        o is None
    } else {
        exists|s: Option<String>|
            #[trigger] pkg_of.ensures((pid,), s) && match s {
                None => o is None,
                Some(k) => if cfg.exempt(k@) || !cfg.interested(k@) {
                    o is None
                } else {
                    exists|th: Option<Vec<(i32, String)>>|
                        #[trigger] threads_of.ensures((pid, cfg.has_thread_rules(k@)), th) && match th {
                            None => o is None,
                            Some(v) => o == Some((k@, cfg.has_thread_rules(k@), threads_view(v@))),
                        }
                },
            }
    }
}

/// The thread table (as plain values) that a rebuild over the processes
/// `pids`, having seen `obs` of the first of them, records: from an empty
/// table, each process seen has its threads recorded as `record_all` says.
pub open spec fn rebuild_tasks(pids: Seq<i32>, obs: Seq<Seen>, cfg: AppConfig) -> Map<
    i32,
    (i32, Set<usize>, Seq<char>, bool, bool),
>
    decreases obs.len(),
{
    if obs.len() == 0 {
        Map::empty()
    } else {
        let m = rebuild_tasks(pids, obs.drop_last(), cfg);
        match obs.last() {
            Some(o) => record_all(m, o.2, pids[obs.len() - 1], o.0, o.1, cfg),
            None => m,
        }
    }
}

/// The process table (as plain values) that such a rebuild records: each
/// process seen some thread of which the rules bind, with its package and
/// whether it has thread rules.
pub open spec fn rebuild_pkgs(pids: Seq<i32>, obs: Seq<Seen>, cfg: AppConfig) -> Map<i32, (Seq<char>, bool)>
    decreases obs.len(),
{
    if obs.len() == 0 {
        Map::empty()
    } else {
        let m = rebuild_pkgs(pids, obs.drop_last(), cfg);
        match obs.last() {
            Some(o) => if any_bound(o.2, o.0, o.1, cfg) {
                m.insert(pids[obs.len() - 1], (o.0, o.1))
            } else {
                m
            },
            None => m,
        }
    }
}

/// The process table as plain values.
pub open spec fn pkgs_view(m: Map<i32, (String, bool)>) -> Map<i32, (Seq<char>, bool)> {
    m.map_values(|e: (String, bool)| (e.0@, e.1))
}

/// Whether the state `new` is what a rebuild over `pids` that saw `obs`
/// leaves: `obs` is what the readers answered for each process (looked at
/// when a full scan was due, `scan0`, or it was tracked, in `tracked0`),
/// and the thread table, the process table and the tracked processes are
/// those recorded from it.
pub open spec fn rebuild_ran<P, T>(
    scan0: bool,
    tracked0: Set<i32>,
    pids: Seq<i32>,
    obs: Seq<Seen>,
    pkg_of: P,
    threads_of: T,
    cfg: AppConfig,
    new: ProcState,
) -> bool where P: Fn(i32) -> Option<String>, T: Fn(i32, bool) -> Option<Vec<(i32, String)>> {
    &&& obs.len() == pids.len()
    &&& forall|i: int|
        0 <= i < pids.len() ==> rebuild_seen(
            pkg_of,
            threads_of,
            cfg,
            scan0 || tracked0.contains(pids[i]),
            pids[i],
            #[trigger] obs[i],
        )
    &&& tasks_view(new.cache.tasks@) == rebuild_tasks(pids, obs, cfg)
    &&& pkgs_view(new.cache.pkgs@) == rebuild_pkgs(pids, obs, cfg)
    &&& new.tracked_pids@ == rebuild_pkgs(pids, obs, cfg).dom()
}

/// The state `new` after a rebuild over the processes `pids`, from a state
/// whose full-scan flag, tracked processes, process total and process count
/// were `scan0`, `tracked0`, `total0` and `count0`: see `rebuild`. The total
/// saturates at `i32::MAX`.
pub open spec fn rebuilt<P, T>(
    scan0: bool,
    tracked0: Set<i32>,
    total0: i32,
    count0: i32,
    new: ProcState,
    pids: Seq<i32>,
    pkg_of: P,
    threads_of: T,
    cfg: AppConfig,
) -> bool where P: Fn(i32) -> Option<String>, T: Fn(i32, bool) -> Option<Vec<(i32, String)>> {
    let total = if pids.len() > i32::MAX {
        i32::MAX as int
    } else {
        pids.len() as int
    };
    &&& new.last_proc_count == count0
    &&& new.last_proc_total == total
    &&& new.scan_all_proc == (total > total0)
    &&& new.force_affinity
    &&& exists|obs: Seq<Seen>| #[trigger] rebuild_ran(scan0, tracked0, pids, obs, pkg_of, threads_of, cfg, new)
    &&& forall|t: i32| #[trigger] new.cache.tasks@.contains_key(t) ==> !new.cache.tasks@[t].failed
}

proof fn lemma_record_all_unfailed(
    tv: Map<i32, (i32, Set<usize>, Seq<char>, bool, bool)>,
    threads: Seq<(i32, Seq<char>)>,
    pid: i32,
    pkg: Seq<char>,
    has_thread_rules: bool,
    cfg: AppConfig,
)
    requires
        forall|k: i32| #[trigger] tv.contains_key(k) ==> !tv[k].4,
    ensures
        forall|k: i32|
            #[trigger] record_all(tv, threads, pid, pkg, has_thread_rules, cfg).contains_key(k) ==> !record_all(
                tv,
                threads,
                pid,
                pkg,
                has_thread_rules,
                cfg,
            )[k].4,
    decreases threads.len(),
{
    if threads.len() > 0 {
        let d = threads.drop_last();
        lemma_record_all_unfailed(tv, d, pid, pkg, has_thread_rules, cfg);
        let r0 = record_all(tv, d, pid, pkg, has_thread_rules, cfg);
        let t = threads.last();
        let a = affinity_of(cfg, cfg.topo, pkg, name_seen(t.1, has_thread_rules, true));
        let r1 = record_all(tv, threads, pid, pkg, has_thread_rules, cfg);
        assert(r1 == record_one(r0, t.0, pid, a));
        assert forall|k: i32| #[trigger] r1.contains_key(k) implies !r1[k].4 by {
            if a is Some && k == t.0 && r1 != r0 {
                let v = a->0;
                assert(r1 == r0.insert(t.0, (pid, v.0, v.1, v.2, false)));
            } else {
                assert(r0.contains_key(k));
            }
        }
    }
}

proof fn lemma_rebuild_tasks_unfailed(pids: Seq<i32>, obs: Seq<Seen>, cfg: AppConfig)
    ensures
        forall|k: i32| #[trigger] rebuild_tasks(pids, obs, cfg).contains_key(k) ==> !rebuild_tasks(pids, obs, cfg)[k].4,
    decreases obs.len(),
{
    if obs.len() > 0 {
        let m = rebuild_tasks(pids, obs.drop_last(), cfg);
        lemma_rebuild_tasks_unfailed(pids, obs.drop_last(), cfg);
        match obs.last() {
            Some(o) => {
                let p = pids[obs.len() - 1];
                lemma_record_all_unfailed(m, o.2, p, o.0, o.1, cfg);
                assert(rebuild_tasks(pids, obs, cfg) == record_all(m, o.2, p, o.0, o.1, cfg));
            },
            None => {
                assert(rebuild_tasks(pids, obs, cfg) == m);
            },
        }
    }
}

impl ProcState {
    /// The state before the first round: everything is to be scanned.
    pub fn new() -> (r: ProcState)
        ensures
            r.cache.pkgs@ == Map::<i32, (String, bool)>::empty(),
            r.cache.tasks@ == Map::<i32, crate::proccache::TaskEntry>::empty(),
            r.last_proc_count == 0,
            r.scan_all_proc,
            r.tracked_pids@ == Set::<i32>::empty(),
            r.last_proc_total == 0,
            !r.force_affinity,
    {
        ProcState {
            cache: ProcCache::new(),
            last_proc_count: 0,
            scan_all_proc: true,
            tracked_pids: HashSet::new(),
            last_proc_total: 0,
            force_affinity: false,
        }
    }

    /// Takes in the system's process count (`None` when it could not be
    /// read) and answers whether the cache is to be rebuilt on that count
    /// alone: a full scan is pending, the count is unknown, or it changed.
    pub fn observe_procs(&mut self, procs: Option<u16>) -> (r: bool)
        ensures
            final(self).cache == old(self).cache,
            final(self).scan_all_proc == old(self).scan_all_proc,
            final(self).tracked_pids == old(self).tracked_pids,
            final(self).last_proc_total == old(self).last_proc_total,
            final(self).force_affinity == old(self).force_affinity,
            match procs {
                None => {
                    &&& r
                    &&& final(self).last_proc_count == old(self).last_proc_count
                },
                Some(n) => {
                    &&& r == (old(self).scan_all_proc || n != old(self).last_proc_count)
                    &&& final(self).last_proc_count == n
                },
            },
    {
        let mut need_reload = self.scan_all_proc;
        match procs {
            None => {
                need_reload = true;
            },
            Some(n) => {
                let cur = n as i32;
                if cur != self.last_proc_count {
                    need_reload = true;
                }
                self.last_proc_count = cur;
            },
        }
        need_reload
    }

    /// Whether a rebuild looks at process `pid`: every process on a full
    /// scan, else only those tracked.
    pub fn wants_pid(&self, pid: i32) -> (r: bool)
        ensures
            r == (self.scan_all_proc || self.tracked_pids@.contains(pid)),
    {
        self.scan_all_proc || self.tracked_pids.contains(&pid)
    }

    /// Whether a rebuild records process `pkg` and, if so, whether its
    /// threads' names matter (it has thread rules): processes left alone
    /// or not of interest are skipped.
    pub fn scan_filter(cfg: &AppConfig, pkg: &str) -> (r: Option<bool>)
        ensures
            r == (if cfg.exempt(pkg@) || !cfg.interested(pkg@) {
                None
            } else {
                Some(cfg.has_thread_rules(pkg@))
            }),
    {
        if cfg.pkg_exempt(pkg) {
            return None;
        }
        if !cfg.pkg_interested(pkg) {
            return None;
        }
        Some(cfg.pkg_has_thread_rules(pkg))
    }

    /// Records the threads `threads` (tid, kernel name) of process `pid`
    /// (package `pkg`) during a rebuild. When the rules bind some thread,
    /// the process is cached, added to `new_tracked`, and the answer is
    /// true.
    pub fn record_process(
        &mut self,
        cfg: &AppConfig,
        pid: i32,
        pkg: &str,
        has_thread_rules: bool,
        threads: &Vec<(i32, String)>,
        new_tracked: &mut HashSet<i32>,
    ) -> (r: bool)
        ensures
            r == any_bound(threads_view(threads@), pkg@, has_thread_rules, *cfg),
            tasks_view(final(self).cache.tasks@) == record_all(
                tasks_view(old(self).cache.tasks@),
                threads_view(threads@),
                pid,
                pkg@,
                has_thread_rules,
                *cfg,
            ),
            r ==> {
                &&& final(self).cache.pkgs@.dom() == old(self).cache.pkgs@.dom().insert(pid)
                &&& final(self).cache.pkgs@.remove(pid) == old(self).cache.pkgs@.remove(pid)
                &&& final(self).cache.pkgs@[pid].0@ == pkg@
                &&& final(self).cache.pkgs@[pid].1 == has_thread_rules
                &&& final(new_tracked)@ == old(new_tracked)@.insert(pid)
            },
            !r ==> final(self).cache.pkgs@ == old(self).cache.pkgs@ && final(new_tracked)@ == old(
                new_tracked,
            )@,
            final(self).last_proc_count == old(self).last_proc_count,
            final(self).scan_all_proc == old(self).scan_all_proc,
            final(self).tracked_pids == old(self).tracked_pids,
            final(self).last_proc_total == old(self).last_proc_total,
            final(self).force_affinity == old(self).force_affinity,
    {
        let ghost tv = threads_view(threads@);
        let mut any = false;
        let mut i: usize = 0;
        assert(tv.take(0) =~= Seq::<(i32, Seq<char>)>::empty());
        while i < threads.len()
            invariant
                i <= threads@.len(),
                tv == threads_view(threads@),
                self.cache.pkgs@ == old(self).cache.pkgs@,
                tasks_view(self.cache.tasks@) == record_all(
                    tasks_view(old(self).cache.tasks@),
                    tv.take(i as int),
                    pid,
                    pkg@,
                    has_thread_rules,
                    *cfg,
                ),
                any == any_bound(tv.take(i as int), pkg@, has_thread_rules, *cfg),
                self.last_proc_count == old(self).last_proc_count,
                self.scan_all_proc == old(self).scan_all_proc,
                self.tracked_pids == old(self).tracked_pids,
                self.last_proc_total == old(self).last_proc_total,
                self.force_affinity == old(self).force_affinity,
            decreases threads@.len() - i,
        {
            let ghost t0 = tv.take(i as int);
            let ghost t1 = tv.take(i + 1);
            assert(t1.drop_last() =~= t0);
            assert(t1.last() == (threads@[i as int].0, threads@[i as int].1@));
            let (tid, ref comm) = threads[i];
            let name = if has_thread_rules {
                comm.as_str()
            } else {
                ""
            };
            proof {
                reveal_strlit("");
                assert(name_seen(name@, has_thread_rules, true) == name_seen(
                    comm@,
                    has_thread_rules,
                    true,
                ));
            }
            if self.cache.task_record(tid, pid, pkg, name, has_thread_rules, cfg) {
                any = true;
            }
            proof {
                assert forall|k: int|
                    0 <= k < t1.len() && (affinity_of(
                        *cfg,
                        cfg.topo,
                        pkg@,
                        name_seen(#[trigger] t1[k].1, has_thread_rules, true),
                    ) is Some) implies any by {
                    if k < i {
                        assert(t0[k] == t1[k]);
                    }
                }
                if any_bound(t0, pkg@, has_thread_rules, *cfg) {
                    let k = choose|k: int|
                        0 <= k < t0.len() && (affinity_of(
                            *cfg,
                            cfg.topo,
                            pkg@,
                            name_seen(#[trigger] t0[k].1, has_thread_rules, true),
                        ) is Some);
                    assert(t1[k] == t0[k]);
                }
            }
            i = i + 1;
        }
        assert(tv.take(threads@.len() as int) =~= tv);
        if any {
            let owned = pkg.to_owned();
            self.cache.pkgs.insert(pid, (owned, has_thread_rules));
            new_tracked.insert(pid);
            proof {
                assert(self.cache.pkgs@.remove(pid) =~= old(self).cache.pkgs@.remove(pid));
            }
        }
        any
    }

    /// Whether some tracked process is gone, as `gone` answers for each.
    pub fn tracked_gone<G: Fn(i32) -> bool>(&self, gone: G) -> (r: bool)
        requires
            forall|p: i32| gone.requires((p,)),
        ensures
            r ==> exists|p: i32| self.tracked_pids@.contains(p) && #[trigger] gone.ensures((p,), true),
            !r ==> forall|p: i32| self.tracked_pids@.contains(p) ==> #[trigger] gone.ensures((p,), false),
    {
        for p in it: self.tracked_pids.iter()
            invariant
                forall|q: i32| gone.requires((q,)),
                forall|k: int| 0 <= k < it.index() ==> #[trigger] gone.ensures((*it.seq()[k],), false),
        {
            if gone(*p) {
                return true;
            }
        }
        false
    }

    /// Rebuilds the cache from the processes `pids` found in `/proc`,
    /// recording bindings without making them: a process looked at
    /// (`wants_pid`) whose package `pkg_of` finds and `scan_filter` keeps,
    /// and whose threads `threads_of` lists (with their names when the
    /// package has thread rules), is recorded and tracked when the rules
    /// bind some thread of it; then `finish_rescan` closes the rebuild.
    pub fn rebuild<P, T>(&mut self, cfg: &AppConfig, pids: &Vec<i32>, pkg_of: P, threads_of: T) where
        P: Fn(i32) -> Option<String>,
        T: Fn(i32, bool) -> Option<Vec<(i32, String)>>,
        requires
            forall|p: i32| pkg_of.requires((p,)),
            forall|p: i32, b: bool| threads_of.requires((p, b)),
        ensures
            rebuilt(
                old(self).scan_all_proc,
                old(self).tracked_pids@,
                old(self).last_proc_total,
                old(self).last_proc_count,
                *final(self),
                pids@,
                pkg_of,
                threads_of,
                *cfg,
            ),
    {
        self.cache.clear();
        let mut new_tracked: HashSet<i32> = HashSet::new();
        let ghost scan0 = self.scan_all_proc;
        let ghost tracked0 = self.tracked_pids@;
        let ghost count0 = self.last_proc_count;
        let ghost total0 = self.last_proc_total;
        let ghost mut obs: Seq<Seen> = Seq::empty();
        proof {
            assert(tasks_view(self.cache.tasks@) =~= rebuild_tasks(pids@, obs, *cfg));
            assert(pkgs_view(self.cache.pkgs@) =~= rebuild_pkgs(pids@, obs, *cfg));
        }
        let mut i: usize = 0;
        while i < pids.len()
            invariant
                i <= pids@.len(),
                self.scan_all_proc == scan0,
                self.tracked_pids@ == tracked0,
                self.last_proc_count == count0,
                self.last_proc_total == total0,
                forall|p: i32| pkg_of.requires((p,)),
                forall|p: i32, b: bool| threads_of.requires((p, b)),
                obs.len() == i,
                forall|j: int|
                    0 <= j < i ==> rebuild_seen(
                        pkg_of,
                        threads_of,
                        *cfg,
                        scan0 || tracked0.contains(pids@[j]),
                        pids@[j],
                        #[trigger] obs[j],
                    ),
                tasks_view(self.cache.tasks@) == rebuild_tasks(pids@, obs, *cfg),
                pkgs_view(self.cache.pkgs@) == rebuild_pkgs(pids@, obs, *cfg),
                new_tracked@ == rebuild_pkgs(pids@, obs, *cfg).dom(),
            decreases pids@.len() - i,
        {
            let pid = pids[i];
            let ghost mut o: Seen = None;
            let ghost tv0 = tasks_view(self.cache.tasks@);
            let ghost pk0 = self.cache.pkgs@;
            let ghost nt0 = new_tracked@;
            let wanted = self.wants_pid(pid);
            if wanted {
                let found = pkg_of(pid);
                let ghost fs = found;
                match found {
                    Some(pkg) => {
                        match Self::scan_filter(cfg, pkg.as_str()) {
                            Some(htr) => {
                                let listed = threads_of(pid, htr);
                                let ghost ls = listed;
                                match listed {
                                    Some(threads) => {
                                        let rec = self.record_process(
                                            cfg,
                                            pid,
                                            pkg.as_str(),
                                            htr,
                                            &threads,
                                            &mut new_tracked,
                                        );
                                        proof {
                                            o = Some((pkg@, htr, threads_view(threads@)));
                                            assert(threads_of.ensures((pid, cfg.has_thread_rules(pkg@)), ls));
                                            assert(pkg_of.ensures((pid,), fs));
                                            if rec {
                                                assert forall|k: i32| #[trigger] pkgs_view(self.cache.pkgs@).contains_key(k)
                                                    == pkgs_view(pk0).insert(pid, (pkg@, htr)).contains_key(k) by {
                                                    if k != pid {
                                                        assert(self.cache.pkgs@.remove(pid).contains_key(k) == pk0.remove(pid).contains_key(k));
                                                    }
                                                }
                                                assert forall|k: i32| #[trigger] pkgs_view(self.cache.pkgs@).contains_key(k)
                                                    implies pkgs_view(self.cache.pkgs@)[k] == pkgs_view(pk0).insert(pid, (pkg@, htr))[k] by {
                                                    if k != pid {
                                                        assert(self.cache.pkgs@.remove(pid)[k] == pk0.remove(pid)[k]);
                                                        assert(self.cache.pkgs@.remove(pid).contains_key(k));
                                                    }
                                                }
                                                assert(pkgs_view(self.cache.pkgs@) =~= pkgs_view(pk0).insert(pid, (pkg@, htr)));
                                            }
                                        }
                                    },
                                    None => {},
                                }
                                proof {
                                    assert(threads_of.ensures((pid, cfg.has_thread_rules(pkg@)), ls));
                                }
                            },
                            None => {},
                        }
                        proof {
                            assert(pkg_of.ensures((pid,), fs));
                        }
                    },
                    None => {},
                }
                proof {
                    assert(pkg_of.ensures((pid,), fs));
                }
            }
            proof {
                assert(rebuild_seen(pkg_of, threads_of, *cfg, scan0 || tracked0.contains(pid), pid, o));
                let obs1 = obs.push(o);
                assert(obs1.drop_last() =~= obs);
                assert(obs1[i as int] == o);
                obs = obs1;
                assert(rebuild_seen(
                    pkg_of,
                    threads_of,
                    *cfg,
                    scan0 || tracked0.contains(pids@[i as int]),
                    pids@[i as int],
                    obs[i as int],
                ));
            }
            i = i + 1;
        }
        proof {
            lemma_rebuild_tasks_unfailed(pids@, obs, *cfg);
        }
        let total: i32 = if pids.len() > 0x7fff_ffff {
            0x7fff_ffff
        } else {
            pids.len() as i32
        };
        self.finish_rescan(total, new_tracked);
        proof {
            assert(rebuild_ran(scan0, tracked0, pids@, obs, pkg_of, threads_of, *cfg, *self));
            assert forall|t: i32| #[trigger] self.cache.tasks@.contains_key(t) implies !self.cache.tasks@[t].failed by {
                assert(tasks_view(self.cache.tasks@).contains_key(t));
                assert(tasks_view(self.cache.tasks@)[t].4 == self.cache.tasks@[t].failed);
            }
        }
    }

    /// One round of the polling mode's upkeep: takes in the process count
    /// (`observe_procs`); when that alone does not ask for a rebuild, asks
    /// `gone` whether each tracked process is gone; and when either does,
    /// rebuilds the cache from the processes `list` gives. Answers whether
    /// it rebuilt.
    pub fn sync<G, L, P, T>(
        &mut self,
        cfg: &AppConfig,
        procs: Option<u16>,
        gone: G,
        list: L,
        pkg_of: P,
        threads_of: T,
    ) -> (r: bool) where
        G: Fn(i32) -> bool,
        L: Fn() -> Vec<i32>,
        P: Fn(i32) -> Option<String>,
        T: Fn(i32, bool) -> Option<Vec<(i32, String)>>,
        requires
            forall|p: i32| gone.requires((p,)),
            list.requires(()),
            forall|p: i32| pkg_of.requires((p,)),
            forall|p: i32, b: bool| threads_of.requires((p, b)),
        ensures
            ({
                let need = match procs {
                    None => true,
                    Some(n) => old(self).scan_all_proc || n != old(self).last_proc_count,
                };
                let count = match procs {
                    None => old(self).last_proc_count,
                    Some(n) => n as i32,
                };
                &&& r ==> need || exists|p: i32|
                    old(self).tracked_pids@.contains(p) && #[trigger] gone.ensures((p,), true)
                &&& r ==> exists|pids: Vec<i32>|
                    #[trigger] list.ensures((), pids) && rebuilt(
                        old(self).scan_all_proc,
                        old(self).tracked_pids@,
                        old(self).last_proc_total,
                        count,
                        *final(self),
                        pids@,
                        pkg_of,
                        threads_of,
                        *cfg,
                    )
                &&& !r ==> {
                    &&& !need
                    &&& forall|p: i32|
                        old(self).tracked_pids@.contains(p) ==> #[trigger] gone.ensures((p,), false)
                    &&& final(self).last_proc_count == count
                    &&& final(self).cache == old(self).cache
                    &&& final(self).scan_all_proc == old(self).scan_all_proc
                    &&& final(self).tracked_pids == old(self).tracked_pids
                    &&& final(self).last_proc_total == old(self).last_proc_total
                    &&& final(self).force_affinity == old(self).force_affinity
                }
            }),
    {
        let mut need = self.observe_procs(procs);
        if !need {
            need = self.tracked_gone(gone);
        }
        if !need {
            return false;
        }
        let pids = list();
        self.rebuild(cfg, &pids, pkg_of, threads_of);
        true
    }

    /// Ends a rebuild that saw `current_total` processes and tracked
    /// `new_tracked`: the next rebuild scans everything only if the number
    /// of processes grew, and a binding pass follows.
    pub fn finish_rescan(&mut self, current_total: i32, new_tracked: HashSet<i32>)
        ensures
            final(self).cache == old(self).cache,
            final(self).last_proc_count == old(self).last_proc_count,
            final(self).scan_all_proc == (current_total > old(self).last_proc_total),
            final(self).last_proc_total == current_total,
            final(self).tracked_pids@ == new_tracked@,
            final(self).force_affinity,
    {
        self.scan_all_proc = current_total > self.last_proc_total;
        self.last_proc_total = current_total;
        self.tracked_pids = new_tracked;
        self.force_affinity = true;
    }
}

} // verus!
