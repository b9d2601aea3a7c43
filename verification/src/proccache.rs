//! The process cache shared by the event-driven and the polling modes: the
//! package of each process, and the binding of each thread.
use vstd::prelude::*;

use std::collections::HashMap;

use crate::config::{comm_pkg, AppConfig};
use crate::cpuset::CpuSet;
use crate::rule_match::{affinity_of, thread_affinity};

verus! {

broadcast use vstd::std_specs::hash::group_hash_axioms;

/// A thread's binding, for `/proc/[pid]/task/[tid]`.
pub struct TaskEntry {
    pub pid: i32,
    pub cpus: CpuSet,
    pub cpuset_dir: String,
    pub is_thread_rule: bool,
    /// The last binding attempt failed (for a reason other than the thread
    /// having exited); it is not retried, so as not to spin on a
    /// `sched_setaffinity` that cannot succeed.
    pub failed: bool,
}

/// What one binding attempt came to.
#[derive(Clone, Copy, Debug, PartialEq, Eq)]
pub enum BindOutcome {
    /// The thread runs on its CPUs.
    Bound,
    /// The kernel refused the binding.
    Failed,
    /// The thread is gone.
    Exited,
}

/// The package of each process (with whether it has thread rules) and the
/// binding of each thread.
pub struct ProcCache {
    pub pkgs: HashMap<i32, (String, bool)>,
    pub tasks: HashMap<i32, TaskEntry>,
}

/// Whether some thread of `tasks` belongs to process `pid`.
pub open spec fn has_task_of(tasks: Map<i32, TaskEntry>, pid: i32) -> bool {
    exists|t: i32| tasks.contains_key(t) && #[trigger] tasks[t].pid == pid
}

/// The process table after `pid` lost a thread: its entry goes when no
/// thread of it is left.
pub open spec fn purged(pkgs: Map<i32, (String, bool)>, tasks: Map<i32, TaskEntry>, pid: i32) -> Map<
    i32,
    (String, bool),
> {
    if has_task_of(tasks, pid) {
        pkgs
    } else {
        pkgs.remove(pid)
    }
}

/// The thread name that rule matching sees: the kernel name when the
/// package has thread rules and the name can be trusted, else none.
pub open spec fn name_seen(comm: Seq<char>, has_thread_rules: bool, trust_comm: bool) -> Seq<char> {
    if has_thread_rules && trust_comm {
        comm
    } else {
        Seq::empty()
    }
}

/// Whether `f`, called for thread `tid` with a mask of CPUs `m` and the
/// cpuset group `d`, may answer `dead`.
pub open spec fn reported<F: FnOnce(i32, &CpuSet, &str) -> bool>(
    f: F,
    tid: i32,
    m: Set<usize>,
    d: Seq<char>,
    dead: bool,
) -> bool {
    exists|c: CpuSet, ds: &str| c@ == m && ds@ == d && #[trigger] f.ensures((tid, &c, ds), dead)
}

/// How `task_apply` changes the thread table `old` into `new` for thread
/// `tid` of process `pid` with the binding `a` that the rules give, where
/// `f` performs the binding and `r` is the answer: no binding leaves the
/// table as it is; a fallback binding leaves a thread-rule binding in
/// place; otherwise `f` is called, and the thread is recorded with the new
/// binding unless `f` reported that it exited, in which case it is dropped.
pub open spec fn task_applied<F: FnOnce(i32, &CpuSet, &str) -> bool>(
    old: Map<i32, TaskEntry>,
    new: Map<i32, TaskEntry>,
    tid: i32,
    pid: i32,
    a: Option<(Set<usize>, Seq<char>, bool)>,
    f: F,
    r: bool,
) -> bool {
    match a {
        None => !r && new == old,
        Some(a) => if !a.2 && old.contains_key(tid) && old[tid].is_thread_rule {
            r && new == old
        } else {
            &&& reported(f, tid, a.0, a.1, !r)
            &&& new.remove(tid) == old.remove(tid)
            &&& r == new.contains_key(tid)
            &&& r ==> {
                let e = new[tid];
                &&& e.pid == pid
                &&& e.cpus@ == a.0
                &&& e.cpuset_dir@ == a.1
                &&& e.is_thread_rule == a.2
                &&& !e.failed
            }
        },
    }
}

/// The package of process `pid` that `pkg_lookup_comm` finds: the cached
/// one, else the first listed package that `comm` stands for.
pub open spec fn lookup_pkg(
    pkgs: Map<i32, (String, bool)>,
    pid: i32,
    comm: Seq<char>,
    cfg: AppConfig,
) -> Option<(Seq<char>, bool)> {
    if pkgs.contains_key(pid) {
        Some((pkgs[pid].0@, pkgs[pid].1))
    } else {
        match comm_pkg(cfg.pkg_set@, comm) {
            Some(p) => Some((p, cfg.has_thread_rules(p))),
            None => None,
        }
    }
}

/// How `pkg_lookup_comm` changes the process table `old` into `new`: a
/// package found by name is cached, nothing else changes.
pub open spec fn looked_up(
    old: Map<i32, (String, bool)>,
    new: Map<i32, (String, bool)>,
    pid: i32,
    comm: Seq<char>,
    cfg: AppConfig,
) -> bool {
    if !old.contains_key(pid) && lookup_pkg(old, pid, comm, cfg) is Some {
        let p = lookup_pkg(old, pid, comm, cfg)->0;
        &&& new.dom() == old.dom().insert(pid)
        &&& new.remove(pid) == old
        &&& new[pid].0@ == p.0
        &&& new[pid].1 == p.1
    } else {
        new == old
    }
}

/// A thread's binding as plain values: (process, CPUs, cpuset group, from a
/// thread rule, last binding failed).
pub open spec fn entry_view(e: TaskEntry) -> (i32, Set<usize>, Seq<char>, bool, bool) {
    (e.pid, e.cpus@, e.cpuset_dir@, e.is_thread_rule, e.failed)
}

/// The thread table as plain values.
pub open spec fn tasks_view(m: Map<i32, TaskEntry>) -> Map<
    i32,
    (i32, Set<usize>, Seq<char>, bool, bool),
> {
    m.map_values(|e: TaskEntry| entry_view(e))
}

/// The thread table (as plain values) after thread `tid` of process `pid`
/// is recorded with the binding `a` without being bound: no binding
/// changes nothing, a fallback binding leaves a thread-rule binding in
/// place, and any other binding is recorded.
pub open spec fn record_one(
    tv: Map<i32, (i32, Set<usize>, Seq<char>, bool, bool)>,
    tid: i32,
    pid: i32,
    a: Option<(Set<usize>, Seq<char>, bool)>,
) -> Map<i32, (i32, Set<usize>, Seq<char>, bool, bool)> {
    match a {
        None => tv,
        Some(a) => if !a.2 && tv.contains_key(tid) && tv[tid].3 {
            tv
        } else {
            tv.insert(tid, (pid, a.0, a.1, a.2, false))
        },
    }
}

/// The thread table after the failed bindings of `outs` are marked.
pub open spec fn with_failures(tasks: Map<i32, TaskEntry>, outs: Seq<(i32, BindOutcome)>) -> Map<
    i32,
    TaskEntry,
>
    decreases outs.len(),
{
    if outs.len() == 0 {
        tasks
    } else {
        let m = with_failures(tasks, outs.drop_last());
        let t = outs.last().0;
        if outs.last().1 == BindOutcome::Failed && m.contains_key(t) {
            m.insert(t, TaskEntry { failed: true, ..m[t] })
        } else {
            m
        }
    }
}

/// The threads of `outs` that had exited, in order.
pub open spec fn exited(outs: Seq<(i32, BindOutcome)>) -> Seq<i32>
    decreases outs.len(),
{
    if outs.len() == 0 {
        Seq::empty()
    } else if outs.last().1 == BindOutcome::Exited {
        exited(outs.drop_last()).push(outs.last().0)
    } else {
        exited(outs.drop_last())
    }
}

/// The number of bindings of `outs` that took.
pub open spec fn bound_count(outs: Seq<(i32, BindOutcome)>) -> nat
    decreases outs.len(),
{
    if outs.len() == 0 {
        0
    } else {
        bound_count(outs.drop_last()) + (if outs.last().1 == BindOutcome::Bound {
            1nat
        } else {
            0nat
        })
    }
}

/// The (process, thread) tables after the threads `tids` are forgotten one
/// after the other, as `task_del` forgets them.
pub open spec fn after_deletes(
    pkgs: Map<i32, (String, bool)>,
    tasks: Map<i32, TaskEntry>,
    tids: Seq<i32>,
) -> (Map<i32, (String, bool)>, Map<i32, TaskEntry>)
    decreases tids.len(),
{
    if tids.len() == 0 {
        (pkgs, tasks)
    } else {
        let (p, t) = after_deletes(pkgs, tasks, tids.drop_last());
        let tid = tids.last();
        if t.contains_key(tid) {
            (purged(p, t.remove(tid), t[tid].pid), t.remove(tid))
        } else {
            (p, t)
        }
    }
}

/// Whether `f`, called for thread `tid` with a mask of CPUs `m` and the
/// cpuset group `d`, may answer `o`.
pub open spec fn answered<F: Fn(i32, &CpuSet, &str) -> BindOutcome>(
    f: F,
    tid: i32,
    m: Set<usize>,
    d: Seq<char>,
    o: BindOutcome,
) -> bool {
    exists|c: CpuSet, ds: &str| c@ == m && ds@ == d && #[trigger] f.ensures((tid, &c, ds), o)
}

/// Whether `outs` is what a binding pass through `f` over the thread table
/// `tasks` came to: every thread whose binding has not failed, once each,
/// with an answer of `f` for its CPUs and cpuset group.
pub open spec fn pass_outcomes<F: Fn(i32, &CpuSet, &str) -> BindOutcome>(
    tasks: Map<i32, TaskEntry>,
    outs: Seq<(i32, BindOutcome)>,
    f: F,
) -> bool {
    &&& forall|i: int|
        0 <= i < outs.len() ==> {
            let t = #[trigger] outs[i].0;
            &&& tasks.contains_key(t)
            &&& !tasks[t].failed
            &&& answered(f, t, tasks[t].cpus@, tasks[t].cpuset_dir@, outs[i].1)
        }
    &&& forall|t: i32|
        tasks.contains_key(t) && !tasks[t].failed ==> exists|i: int|
            0 <= i < outs.len() && #[trigger] outs[i].0 == t
    &&& forall|i: int, j: int| 0 <= i < j < outs.len() ==> outs[i].0 != outs[j].0
}

impl ProcCache {
    /// An empty cache.
    pub fn new() -> (r: ProcCache)
        ensures
            r.pkgs@ == Map::<i32, (String, bool)>::empty(),
            r.tasks@ == Map::<i32, TaskEntry>::empty(),
    {
        ProcCache { pkgs: HashMap::new(), tasks: HashMap::new() }
    }

    /// Forgets every process and thread.
    pub fn clear(&mut self)
        ensures
            final(self).pkgs@ == Map::<i32, (String, bool)>::empty(),
            final(self).tasks@ == Map::<i32, TaskEntry>::empty(),
    {
        self.pkgs.clear();
        self.tasks.clear();
    }

    /// Whether some cached thread belongs to process `pid`.
    fn has_task_of(&self, pid: i32) -> (r: bool)
        ensures
            r == has_task_of(self.tasks@, pid),
    {
        for t in it: self.tasks.keys()
            invariant
                forall|k: int|
                    0 <= k < it.index() ==> #[trigger] self.tasks@[*it.seq()[k]].pid != pid,
        {
            match self.tasks.get(t) {
                Some(e) => {
                    if e.pid == pid {
                        return true;
                    }
                },
                None => {},
            }
        }
        false
    }

    /// Forgets process `pid` once it has no cached thread left.
    fn pkgs_purge(&mut self, pid: i32)
        ensures
            final(self).tasks@ == old(self).tasks@,
            final(self).pkgs@ == purged(old(self).pkgs@, old(self).tasks@, pid),
    {
        if !self.has_task_of(pid) {
            self.pkgs.remove(&pid);
        }
    }

    /// Forgets thread `tid`, and its process once no thread of it is left.
    pub fn task_del(&mut self, tid: i32)
        ensures
            final(self).tasks@ == old(self).tasks@.remove(tid),
            final(self).pkgs@ == (if old(self).tasks@.contains_key(tid) {
                purged(old(self).pkgs@, old(self).tasks@.remove(tid), old(self).tasks@[tid].pid)
            } else {
                old(self).pkgs@
            }),
    {
        match self.tasks.remove(&tid) {
            Some(t) => {
                self.pkgs_purge(t.pid);
            },
            None => {},
        }
    }

    /// The package of process `pid` and whether it has thread rules: the
    /// cached one, else the first listed package that its kernel name
    /// `comm` stands for, which is then cached.
    pub fn pkg_lookup_comm(&mut self, pid: i32, comm: &str, cfg: &AppConfig) -> (r: Option<
        (String, bool),
    >)
        ensures
            final(self).tasks@ == old(self).tasks@,
            looked_up(old(self).pkgs@, final(self).pkgs@, pid, comm@, *cfg),
            match lookup_pkg(old(self).pkgs@, pid, comm@, *cfg) {
                Some(p) => r matches Some(x) && x.0@ == p.0 && x.1 == p.1,
                None => r is None,
            },
    {
        match self.pkgs.get(&pid) {
            Some(e) => {
                return Some((e.0.clone(), e.1));
            },
            None => {},
        }
        let pkg = match cfg.comm_to_pkg(comm) {
            Some(p) => p,
            None => {
                return None;
            },
        };
        let has_thread_rules = cfg.pkg_has_thread_rules(pkg.as_str());
        self.pkgs.insert(pid, (pkg.clone(), has_thread_rules));
        proof {
            assert(self.pkgs@.remove(pid) =~= old(self).pkgs@);
        }
        Some((pkg, has_thread_rules))
    }

    /// Binds thread `tid` of process `pid` (package `pkg`, kernel name
    /// `comm`) as the rules say: `apply_fn` performs the binding and
    /// answers whether the thread has exited. The name is used only when
    /// the package has thread rules and `trust_comm` holds (a forked thread
    /// still carries its parent's name). A fallback binding never replaces
    /// a binding made by a thread rule. Answers whether the thread is bound.
    pub fn task_apply<F>(
        &mut self,
        tid: i32,
        pid: i32,
        pkg: &str,
        comm: &str,
        has_thread_rules: bool,
        cfg: &AppConfig,
        trust_comm: bool,
        apply_fn: F,
    ) -> (r: bool) where F: FnOnce(i32, &CpuSet, &str) -> bool
        requires
            forall|t: i32, c: &CpuSet, d: &str| apply_fn.requires((t, c, d)),
        ensures
            final(self).pkgs@ == old(self).pkgs@,
            task_applied(
                old(self).tasks@,
                final(self).tasks@,
                tid,
                pid,
                affinity_of(*cfg, cfg.topo, pkg@, name_seen(comm@, has_thread_rules, trust_comm)),
                apply_fn,
                r,
            ),
    {
        let thread_name = if has_thread_rules && trust_comm {
            comm
        } else {
            ""
        };
        proof {
            reveal_strlit("");
            assert(thread_name@ == name_seen(comm@, has_thread_rules, trust_comm));
        }
        let result = match thread_affinity(pkg, thread_name, cfg, &cfg.topo) {
            Some(x) => x,
            None => {
                return false;
            },
        };
        if !result.is_thread_rule {
            match self.tasks.get(&tid) {
                Some(old_entry) => {
                    if old_entry.is_thread_rule {
                        return true;
                    }
                },
                None => {},
            }
        }
        self.tasks.remove(&tid);
        let dead = apply_fn(tid, &result.cpus, result.cpuset_dir.as_str());
        if dead {
            assert(self.tasks@.remove(tid) =~= old(self).tasks@.remove(tid));
            return false;
        }
        self.tasks.insert(
            tid,
            TaskEntry {
                pid,
                cpus: result.cpus,
                cpuset_dir: result.cpuset_dir,
                is_thread_rule: result.is_thread_rule,
                failed: false,
            },
        );
        proof {
            assert(self.tasks@.remove(tid) =~= old(self).tasks@.remove(tid));
        }
        true
    }

    /// Records thread `tid` of process `pid` with the binding the rules
    /// give, without binding it (the polling mode binds on its periodic
    /// pass); answers whether the rules give a binding.
    pub fn task_record(
        &mut self,
        tid: i32,
        pid: i32,
        pkg: &str,
        comm: &str,
        has_thread_rules: bool,
        cfg: &AppConfig,
    ) -> (r: bool)
        ensures
            final(self).pkgs@ == old(self).pkgs@,
            r == (affinity_of(*cfg, cfg.topo, pkg@, name_seen(comm@, has_thread_rules, true)) is Some),
            tasks_view(final(self).tasks@) == record_one(
                tasks_view(old(self).tasks@),
                tid,
                pid,
                affinity_of(*cfg, cfg.topo, pkg@, name_seen(comm@, has_thread_rules, true)),
            ),
    {
        let keep = |t: i32, c: &CpuSet, d: &str| -> (dead: bool)
            ensures
                !dead,
            { false };
        let r = self.task_apply(tid, pid, pkg, comm, has_thread_rules, cfg, true, keep);
        proof {
            let a = affinity_of(*cfg, cfg.topo, pkg@, name_seen(comm@, has_thread_rules, true));
            let ov = tasks_view(old(self).tasks@);
            let nv = tasks_view(self.tasks@);
            if a is Some {
                let a = a->0;
                if !a.2 && old(self).tasks@.contains_key(tid) && old(self).tasks@[tid].is_thread_rule {
                    assert(nv =~= ov);
                } else {
                    assert(r);
                    assert(nv =~= ov.insert(tid, (pid, a.0, a.1, a.2, false))) by {
                        assert forall|k: i32| #[trigger] nv.contains_key(k) == ov.insert(tid, (pid, a.0, a.1, a.2, false)).contains_key(k) by {
                            if k != tid {
                                assert(self.tasks@.remove(tid).contains_key(k) == old(self).tasks@.remove(tid).contains_key(k));
                            }
                        }
                        assert forall|k: i32| nv.contains_key(k) implies #[trigger] nv[k] == ov.insert(tid, (pid, a.0, a.1, a.2, false))[k] by {
                            if k != tid {
                                assert(self.tasks@.remove(tid)[k] == old(self).tasks@.remove(tid)[k]);
                            }
                        }
                    }
                }
            } else {
                assert(nv =~= ov);
            }
        }
        r
    }

    /// The threads to bind on a periodic pass: every cached thread whose
    /// last binding did not fail, once each, with its CPUs and cpuset group.
    pub fn affinity_plan(&self) -> (r: Vec<(i32, CpuSet, String)>)
        ensures
            forall|i: int|
                0 <= i < r@.len() ==> {
                    let t = #[trigger] r@[i].0;
                    &&& self.tasks@.contains_key(t)
                    &&& !self.tasks@[t].failed
                    &&& r@[i].1@ == self.tasks@[t].cpus@
                    &&& r@[i].2@ == self.tasks@[t].cpuset_dir@
                },
            forall|t: i32|
                self.tasks@.contains_key(t) && !self.tasks@[t].failed ==> exists|i: int|
                    0 <= i < r@.len() && #[trigger] r@[i].0 == t,
            forall|i: int, j: int| 0 <= i < j < r@.len() ==> r@[i].0 != r@[j].0,
    {
        let mut r: Vec<(i32, CpuSet, String)> = Vec::new();
        let ghost mut idx: Seq<int> = Seq::empty();
        for t in it: self.tasks.keys()
            invariant
                it.seq().no_duplicates(),
                idx.len() == r@.len(),
                forall|i: int| 0 <= i < idx.len() ==> 0 <= #[trigger] idx[i] < it.index(),
                forall|i: int, j: int| 0 <= i < j < idx.len() ==> idx[i] < idx[j],
                forall|i: int| 0 <= i < r@.len() ==> #[trigger] r@[i].0 == *it.seq()[idx[i]],
                forall|i: int|
                    0 <= i < r@.len() ==> {
                        let t = #[trigger] r@[i].0;
                        &&& self.tasks@.contains_key(t)
                        &&& !self.tasks@[t].failed
                        &&& r@[i].1@ == self.tasks@[t].cpus@
                        &&& r@[i].2@ == self.tasks@[t].cpuset_dir@
                    },
                forall|k: int|
                    0 <= k < it.index() && self.tasks@.contains_key(*#[trigger] it.seq()[k])
                        && !self.tasks@[*it.seq()[k]].failed ==> exists|i: int|
                        0 <= i < r@.len() && r@[i].0 == *it.seq()[k],
        {
            let ghost k = it.index();
            let ghost r0 = r@;
            match self.tasks.get(t) {
                Some(e) => {
                    if !e.failed {
                        r.push((*t, e.cpus, e.cpuset_dir.clone()));
                        proof {
                            idx = idx.push(k);
                            assert(r@[r0.len() as int].0 == *t);
                            assert forall|k2: int|
                                0 <= k2 < k && self.tasks@.contains_key(*#[trigger] it.seq()[k2])
                                    && !self.tasks@[*it.seq()[k2]].failed implies exists|i: int|
                                    0 <= i < r@.len() && r@[i].0 == *it.seq()[k2] by {
                                let i = choose|i: int| 0 <= i < r0.len() && r0[i].0 == *it.seq()[k2];
                                assert(r@[i] == r0[i]);
                            }
                        }
                    }
                },
                None => {},
            }
        }
        r
    }

    /// A periodic binding pass: every cached thread whose binding has not
    /// failed is bound through `bind`, which answers what came of it; the
    /// outcomes are then taken in as `affinity_sync` takes them. Answers
    /// how many bindings took and which threads had exited.
    pub fn affinity_pass<F>(&mut self, bind: F) -> (r: (usize, Vec<i32>)) where
        F: Fn(i32, &CpuSet, &str) -> BindOutcome,
        requires
            forall|t: i32, c: &CpuSet, d: &str| bind.requires((t, c, d)),
        ensures
            exists|outs: Seq<(i32, BindOutcome)>|
                {
                    &&& pass_outcomes(old(self).tasks@, outs, bind)
                    &&& r.0 == bound_count(outs)
                    &&& r.1@ == exited(outs)
                    &&& (final(self).pkgs@, final(self).tasks@) == after_deletes(
                        old(self).pkgs@,
                        with_failures(old(self).tasks@, outs),
                        exited(outs),
                    )
                },
    {
        let ghost tasks0 = self.tasks@;
        let plan = self.affinity_plan();
        let mut outs: Vec<(i32, BindOutcome)> = Vec::new();
        let mut i: usize = 0;
        while i < plan.len()
            invariant
                i <= plan@.len(),
                outs@.len() == i,
                forall|k: int|
                    0 <= k < i ==> #[trigger] outs@[k].0 == plan@[k].0 && answered(
                        bind,
                        plan@[k].0,
                        plan@[k].1@,
                        plan@[k].2@,
                        outs@[k].1,
                    ),
                forall|t: i32, c: &CpuSet, d: &str| bind.requires((t, c, d)),
            decreases plan@.len() - i,
        {
            let t = plan[i].0;
            let c = &plan[i].1;
            let d = plan[i].2.as_str();
            let o = bind(t, c, d);
            assert(bind.ensures((t, c, d), o));
            assert(answered(bind, plan@[i as int].0, plan@[i as int].1@, plan@[i as int].2@, o));
            outs.push((t, o));
            i = i + 1;
        }
        proof {
            assert forall|k: int| 0 <= k < outs@.len() implies {
                let t = #[trigger] outs@[k].0;
                &&& tasks0.contains_key(t)
                &&& !tasks0[t].failed
                &&& answered(bind, t, tasks0[t].cpus@, tasks0[t].cpuset_dir@, outs@[k].1)
            } by {
                assert(plan@[k].0 == outs@[k].0);
            }
            assert forall|t: i32| tasks0.contains_key(t) && !tasks0[t].failed implies exists|k: int|
                0 <= k < outs@.len() && #[trigger] outs@[k].0 == t by {
                let k = choose|k: int| 0 <= k < plan@.len() && #[trigger] plan@[k].0 == t;
                assert(outs@[k].0 == plan@[k].0);
            }
            assert forall|a: int, b: int| 0 <= a < b < outs@.len() implies outs@[a].0 != outs@[b].0 by {
                assert(outs@[a].0 == plan@[a].0);
                assert(outs@[b].0 == plan@[b].0);
            }
            assert(pass_outcomes(tasks0, outs@, bind));
        }
        self.affinity_sync(&outs)
    }

    /// Takes in the outcomes of a periodic binding pass: a failed binding
    /// is marked so that it is not retried, and the threads that had exited
    /// are forgotten (with their process once it has no thread left).
    /// Answers how many bindings took and which threads had exited.
    pub fn affinity_sync(&mut self, outcomes: &Vec<(i32, BindOutcome)>) -> (r: (usize, Vec<i32>))
        ensures
            r.0 == bound_count(outcomes@),
            r.1@ == exited(outcomes@),
            (final(self).pkgs@, final(self).tasks@) == after_deletes(
                old(self).pkgs@,
                with_failures(old(self).tasks@, outcomes@),
                exited(outcomes@),
            ),
    {
        let mut bound: usize = 0;
        let mut dead: Vec<i32> = Vec::new();
        let mut i: usize = 0;
        assert(outcomes@.take(0) =~= Seq::<(i32, BindOutcome)>::empty());
        while i < outcomes.len()
            invariant
                i <= outcomes@.len(),
                self.pkgs@ == old(self).pkgs@,
                self.tasks@ == with_failures(old(self).tasks@, outcomes@.take(i as int)),
                dead@ == exited(outcomes@.take(i as int)),
                bound == bound_count(outcomes@.take(i as int)),
                bound <= i,
            decreases outcomes@.len() - i,
        {
            let ghost t1 = outcomes@.take(i + 1);
            assert(t1.drop_last() =~= outcomes@.take(i as int));
            let (tid, o) = outcomes[i];
            match o {
                BindOutcome::Bound => {
                    bound = bound + 1;
                },
                BindOutcome::Failed => {
                    match self.tasks.remove(&tid) {
                        Some(e) => {
                            let mut e = e;
                            e.failed = true;
                            self.tasks.insert(tid, e);
                        },
                        None => {},
                    }
                },
                BindOutcome::Exited => {
                    dead.push(tid);
                },
            }
            i = i + 1;
            proof {
                assert(self.tasks@ =~= with_failures(old(self).tasks@, t1));
            }
        }
        assert(outcomes@.take(outcomes@.len() as int) =~= outcomes@);
        let ghost mid_tasks = self.tasks@;
        let mut j: usize = 0;
        assert(dead@.take(0) =~= Seq::<i32>::empty());
        while j < dead.len()
            invariant
                j <= dead@.len(),
                (self.pkgs@, self.tasks@) == after_deletes(
                    old(self).pkgs@,
                    mid_tasks,
                    dead@.take(j as int),
                ),
            decreases dead@.len() - j,
        {
            assert(dead@.take(j + 1).drop_last() =~= dead@.take(j as int));
            self.task_del(dead[j]);
            j = j + 1;
        }
        assert(dead@.take(dead@.len() as int) =~= dead@);
        (bound, dead)
    }
}

proof fn lemma_with_failures_dom(tasks: Map<i32, TaskEntry>, outs: Seq<(i32, BindOutcome)>)
    ensures
        with_failures(tasks, outs).dom() == tasks.dom(),
        forall|k: i32|
            tasks.contains_key(k) && tasks[k].failed ==> #[trigger] with_failures(tasks, outs)[k].failed,
    decreases outs.len(),
{
    if outs.len() > 0 {
        lemma_with_failures_dom(tasks, outs.drop_last());
        let m = with_failures(tasks, outs.drop_last());
        let t = outs.last().0;
        if outs.last().1 == BindOutcome::Failed && m.contains_key(t) {
            assert(m.insert(t, TaskEntry { failed: true, ..m[t] }).dom() =~= m.dom());
        }
    }
}

proof fn lemma_with_failures_marks(tasks: Map<i32, TaskEntry>, outs: Seq<(i32, BindOutcome)>, i: int)
    requires
        0 <= i < outs.len(),
        outs[i].1 == BindOutcome::Failed,
        tasks.contains_key(outs[i].0),
    ensures
        with_failures(tasks, outs)[outs[i].0].failed,
    decreases outs.len(),
{
    let d = outs.drop_last();
    lemma_with_failures_dom(tasks, d);
    if i < outs.len() - 1 {
        assert(d[i] == outs[i]);
        lemma_with_failures_marks(tasks, d, i);
    }
}

proof fn lemma_after_deletes_keeps(
    pkgs: Map<i32, (String, bool)>,
    tasks: Map<i32, TaskEntry>,
    tids: Seq<i32>,
    k: i32,
)
    ensures
        after_deletes(pkgs, tasks, tids).1.contains_key(k) == (tasks.contains_key(k) && !tids.contains(k)),
        after_deletes(pkgs, tasks, tids).1.contains_key(k) ==> after_deletes(pkgs, tasks, tids).1[k]
            == tasks[k],
    decreases tids.len(),
{
    if tids.len() > 0 {
        let d = tids.drop_last();
        lemma_after_deletes_keeps(pkgs, tasks, d, k);
        assert(tids.contains(k) == (d.contains(k) || tids.last() == k)) by {
            if tids.contains(k) && tids.last() != k {
                let j = choose|j: int| 0 <= j < tids.len() && tids[j] == k;
                assert(d[j] == k);
            }
            if d.contains(k) {
                let j = choose|j: int| 0 <= j < d.len() && d[j] == k;
                assert(tids[j] == k);
            }
        }
    }
}

proof fn lemma_exited_members(outs: Seq<(i32, BindOutcome)>, k: i32)
    ensures
        exited(outs).contains(k) == exists|i: int|
            0 <= i < outs.len() && #[trigger] outs[i] == (k, BindOutcome::Exited),
    decreases outs.len(),
{
    if outs.len() > 0 {
        let d = outs.drop_last();
        lemma_exited_members(d, k);
        let e = exited(outs);
        let ed = exited(d);
        if exists|i: int| 0 <= i < outs.len() && #[trigger] outs[i] == (k, BindOutcome::Exited) {
            let i = choose|i: int| 0 <= i < outs.len() && #[trigger] outs[i] == (k, BindOutcome::Exited);
            if i < outs.len() - 1 {
                assert(d[i] == outs[i]);
                let j = choose|j: int| 0 <= j < ed.len() && ed[j] == k;
                if outs.last().1 == BindOutcome::Exited {
                    assert(e[j] == k);
                }
            } else {
                assert(e[e.len() - 1] == k);
            }
        }
        if e.contains(k) {
            let j = choose|j: int| 0 <= j < e.len() && e[j] == k;
            if outs.last().1 == BindOutcome::Exited && j == e.len() - 1 {
                assert(outs[outs.len() - 1] == (k, BindOutcome::Exited));
            } else {
                assert(ed[j] == k);
                let i = choose|i: int| 0 <= i < d.len() && #[trigger] d[i] == (k, BindOutcome::Exited);
                assert(outs[i] == d[i]);
            }
        }
    }
}

/// A thread whose kernel name matches a thread rule of its package (any
/// pattern, wildcards included) that names some CPU is bound by its thread
/// rules, to at least that rule's CPUs, when it is recorded or bound with
/// the package's thread-rule flag and its name trusted, as a rebuild or an
/// event does.
pub proof fn lemma_named_thread_rule_applies(cfg: AppConfig, pkg: Seq<char>, comm: Seq<char>, i: int)
    requires
        !crate::config::names_hold(cfg.asoul_ignore@, pkg),
        comm.len() > 0,
        0 <= i < cfg.rules@.len(),
        crate::rule_match::thread_hit(cfg.rules@[i], pkg, comm),
        crate::cpuset::list_mask(cfg.rules@[i].cpus@) != Set::<usize>::empty(),
    ensures
        affinity_of(cfg, cfg.topo, pkg, name_seen(comm, cfg.has_thread_rules(pkg), true)) matches Some(a) && a.2
            && crate::cpuset::list_mask(cfg.rules@[i].cpus@).subset_of(a.0),
{
    crate::config::lemma_any_pattern_is_a_thread_rule(cfg, pkg, i);
    crate::rule_match::lemma_matching_rules_accumulate(cfg, cfg.topo, pkg, comm, i);
}

/// Once the package of a process has been found, every later lookup for
/// that process gives the same package, whatever name it is asked with.
pub proof fn lemma_lookup_is_cached(
    before: Map<i32, (String, bool)>,
    after: Map<i32, (String, bool)>,
    pid: i32,
    comm: Seq<char>,
    later_comm: Seq<char>,
    cfg: AppConfig,
)
    requires
        looked_up(before, after, pid, comm, cfg),
        lookup_pkg(before, pid, comm, cfg) is Some,
    ensures
        lookup_pkg(after, pid, later_comm, cfg) == lookup_pkg(before, pid, comm, cfg),
{
}

/// A fallback binding never replaces a binding made by a thread rule: the
/// thread table stays as it is and the thread counts as bound.
pub proof fn lemma_fallback_keeps_thread_binding<F: FnOnce(i32, &CpuSet, &str) -> bool>(
    before: Map<i32, TaskEntry>,
    after: Map<i32, TaskEntry>,
    tid: i32,
    pid: i32,
    binding: (Set<usize>, Seq<char>, bool),
    f: F,
    r: bool,
)
    requires
        before.contains_key(tid),
        before[tid].is_thread_rule,
        !binding.2,
        task_applied(before, after, tid, pid, Some(binding), f, r),
    ensures
        r,
        after == before,
{
}

/// When a process's last cached thread is forgotten, the process is
/// forgotten too; while it has threads left, it stays.
pub proof fn lemma_last_thread_takes_process(
    pkgs: Map<i32, (String, bool)>,
    tasks: Map<i32, TaskEntry>,
    tid: i32,
)
    requires
        tasks.contains_key(tid),
    ensures
        ({
            let pid = tasks[tid].pid;
            let left = tasks.remove(tid);
            let p = purged(pkgs, left, pid);
            &&& !has_task_of(left, pid) ==> !p.contains_key(pid)
            &&& has_task_of(left, pid) ==> p == pkgs
            &&& forall|q: i32| q != pid ==> p.contains_key(q) == pkgs.contains_key(q)
        }),
{
}

/// After a binding pass, a thread whose binding failed (and that did not
/// exit) stays cached with its binding marked failed, so the next pass
/// (`affinity_plan`) leaves it out; a thread that exited is forgotten.
pub proof fn lemma_sync_outcomes(
    pkgs: Map<i32, (String, bool)>,
    tasks: Map<i32, TaskEntry>,
    outs: Seq<(i32, BindOutcome)>,
    tid: i32,
)
    ensures
        ({
            let t = after_deletes(pkgs, with_failures(tasks, outs), exited(outs)).1;
            &&& (exists|i: int| 0 <= i < outs.len() && #[trigger] outs[i] == (tid, BindOutcome::Exited))
                ==> !t.contains_key(tid)
            &&& (tasks.contains_key(tid) && (exists|i: int|
                0 <= i < outs.len() && #[trigger] outs[i] == (tid, BindOutcome::Failed)) && !(exists|i: int|
                0 <= i < outs.len() && #[trigger] outs[i] == (tid, BindOutcome::Exited))) ==> t.contains_key(tid)
                && t[tid].failed
        }),
{
    let w = with_failures(tasks, outs);
    lemma_with_failures_dom(tasks, outs);
    lemma_exited_members(outs, tid);
    lemma_after_deletes_keeps(pkgs, w, exited(outs), tid);
    if tasks.contains_key(tid) && (exists|i: int|
        0 <= i < outs.len() && #[trigger] outs[i] == (tid, BindOutcome::Failed)) {
        let i = choose|i: int| 0 <= i < outs.len() && #[trigger] outs[i] == (tid, BindOutcome::Failed);
        lemma_with_failures_marks(tasks, outs, i);
    }
}

} // verus!
