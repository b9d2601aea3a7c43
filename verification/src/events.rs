//! Process events from the kernel (exec, exit, fork, rename) and what the
//! process cache does with each.
use vstd::prelude::*;

use crate::config::AppConfig;
use crate::cpuset::CpuSet;
use crate::proccache::{
    looked_up, lookup_pkg, name_seen, purged, task_applied, ProcCache, TaskEntry,
};
use crate::procsync::{pkgs_view, threads_view, Seen};
use crate::rule_match::affinity_of;
use crate::text::{chars_of, string_of, trim, trim_bounds};
use vstd::utf8::{decode_utf8, valid_utf8};

verus! {

broadcast use vstd::std_specs::hash::group_hash_axioms;

/// A program was executed.
pub const EVENT_EXEC: u32 = 1;

/// A thread exited.
pub const EVENT_EXIT: u32 = 2;

/// A thread was created.
pub const EVENT_FORK: u32 = 3;

/// A thread changed its name.
pub const EVENT_RENAME: u32 = 4;

/// One process event as the kernel probe reports it.
#[derive(Clone, Copy, Debug)]
pub struct EbpfProcEvent {
    pub event_type: u32,
    pub tid: i32,
    pub pid: i32,
    pub comm: [u8; 16],
}

/// The index of the first NUL byte of `c` at or after `i`, or its length.
pub open spec fn nul_at(c: Seq<u8>, i: int) -> int
    decreases c.len() - i,
{
    if i < 0 || i >= c.len() {
        c.len() as int
    } else if c[i] == 0 {
        i
    } else {
        nul_at(c, i + 1)
    }
}

/// The name in a kernel `comm` buffer: the bytes before the first NUL,
/// decoded as UTF-8 and trimmed; an invalid encoding gives the empty name.
pub open spec fn comm_text(c: Seq<u8>) -> Seq<char> {
    let b = c.take(nul_at(c, 0));
    if valid_utf8(b) {
        trim(decode_utf8(b))
    } else {
        Seq::empty()
    }
}

/// The string of UTF-8 bytes, if they are valid UTF-8.
/// Calls `String::from_utf8`, which succeeds exactly on valid UTF-8 and then
/// holds the characters those bytes encode.
#[verifier::external_body]
fn utf8_string(bytes: Vec<u8>) -> (r: Option<String>)
    ensures
        r is Some <==> valid_utf8(bytes@),
        r matches Some(s) ==> s@ == decode_utf8(bytes@),
{
    String::from_utf8(bytes).ok()
}

/// The name in a kernel `comm` buffer; see `comm_text`.
pub fn comm_str(comm: &[u8; 16]) -> (r: String)
    ensures
        r@ == comm_text(comm@),
{
    let mut end: usize = 0;
    while end < 16 && comm[end] != 0
        invariant
            end <= 16,
            nul_at(comm@, 0) == nul_at(comm@, end as int),
        decreases 16 - end,
    {
        end = end + 1;
    }
    let mut bytes: Vec<u8> = Vec::new();
    let mut i: usize = 0;
    while i < end
        invariant
            i <= end <= 16,
            bytes@ == comm@.take(i as int),
        decreases end - i,
    {
        bytes.push(comm[i]);
        i = i + 1;
        assert(bytes@ =~= comm@.take(i as int));
    }
    let s = match utf8_string(bytes) {
        Some(s) => s,
        None => {
            return String::new();
        },
    };
    let v = chars_of(s.as_str());
    let (a, b) = trim_bounds(&v, 0, v.len());
    assert(v@.subrange(0, v@.len() as int) =~= v@);
    string_of(&v, a, b)
}

/// How `event_apply` changes the cache from `(op, ot)` to `(np, nt)` and
/// what it answers: when the package of `pid` is found (and cached), the
/// thread is bound as `task_apply` binds it.
pub open spec fn event_applied<F: FnOnce(i32, &CpuSet, &str) -> bool>(
    op: Map<i32, (String, bool)>,
    ot: Map<i32, TaskEntry>,
    np: Map<i32, (String, bool)>,
    nt: Map<i32, TaskEntry>,
    tid: i32,
    pid: i32,
    comm: Seq<char>,
    cfg: AppConfig,
    trust_comm: bool,
    f: F,
    r: bool,
) -> bool {
    &&& looked_up(op, np, pid, comm, cfg)
    &&& r == (lookup_pkg(op, pid, comm, cfg) is Some)
    &&& match lookup_pkg(op, pid, comm, cfg) {
        None => nt == ot,
        Some(p) => exists|b: bool|
            task_applied(
                ot,
                nt,
                tid,
                pid,
                affinity_of(cfg, cfg.topo, p.0, name_seen(comm, p.1, trust_comm)),
                f,
                b,
            ),
    }
}

/// The cache after thread `tid` is forgotten, as `task_del` leaves it.
pub open spec fn deleted(pkgs: Map<i32, (String, bool)>, tasks: Map<i32, TaskEntry>, tid: i32) -> (
    Map<i32, (String, bool)>,
    Map<i32, TaskEntry>,
) {
    if tasks.contains_key(tid) {
        (purged(pkgs, tasks.remove(tid), tasks[tid].pid), tasks.remove(tid))
    } else {
        (pkgs, tasks)
    }
}

/// Whether thread `tid` is the main thread of process `pid`.
pub open spec fn is_main(tid: i32, pid: i32) -> bool {
    tid == pid
}

/// When the main thread of a process exits, the process is forgotten,
/// whatever threads of it are still cached.
pub proof fn lemma_main_exit_forgets_process(
    pkgs: Map<i32, (String, bool)>,
    tasks: Map<i32, TaskEntry>,
    pid: i32,
)
    ensures
        !deleted(pkgs.remove(pid), tasks, pid).0.contains_key(pid),
{
}

/// Finds the package of process `pid` and binds thread `tid` as the rules
/// say; answers whether the package was found.
pub fn event_apply<F>(
    pc: &mut ProcCache,
    tid: i32,
    pid: i32,
    comm: &str,
    cfg: &AppConfig,
    trust_comm: bool,
    apply_fn: F,
) -> (r: bool) where F: FnOnce(i32, &CpuSet, &str) -> bool
    requires
        forall|t: i32, c: &CpuSet, d: &str| apply_fn.requires((t, c, d)),
    ensures
        event_applied(
            old(pc).pkgs@,
            old(pc).tasks@,
            final(pc).pkgs@,
            final(pc).tasks@,
            tid,
            pid,
            comm@,
            *cfg,
            trust_comm,
            apply_fn,
            r,
        ),
{
    let (pkg, has_thread_rules) = match pc.pkg_lookup_comm(pid, comm, cfg) {
        Some(x) => x,
        None => {
            return false;
        },
    };
    let b = pc.task_apply(tid, pid, pkg.as_str(), comm, has_thread_rules, cfg, trust_comm, apply_fn);
    true
}

/// Updates the cache for one process event, binding threads through
/// `apply_fn`. An exit forgets the thread (and the process with its main
/// thread); an exec forgets the process's cached package and binds the
/// thread anew, forgetting it when its package is unknown; a fork binds the
/// new thread, using its name only for a main thread (a forked thread still
/// carries its parent's name); a rename binds the thread by its new name.
/// Answers whether the thread's record in the probe's map is to be dropped.
pub fn event_dispatch<F>(event: &EbpfProcEvent, cfg: &AppConfig, pc: &mut ProcCache, apply_fn: F) -> (r:
    bool) where F: FnOnce(i32, &CpuSet, &str) -> bool
    requires
        forall|t: i32, c: &CpuSet, d: &str| apply_fn.requires((t, c, d)),
    ensures
        ({
            let tid = event.tid;
            let pid = event.pid;
            let comm = comm_text(event.comm@);
            let op = old(pc).pkgs@;
            let ot = old(pc).tasks@;
            let np = final(pc).pkgs@;
            let nt = final(pc).tasks@;
            if event.event_type == EVENT_EXIT {
                let p1 = if tid == pid {
                    op.remove(pid)
                } else {
                    op
                };
                r && (np, nt) == deleted(p1, ot, tid)
            } else if event.event_type == EVENT_EXEC {
                let p1 = op.remove(pid);
                if lookup_pkg(p1, pid, comm, *cfg) is Some {
                    !r && event_applied(p1, ot, np, nt, tid, pid, comm, *cfg, true, apply_fn, true)
                } else {
                    r && (np, nt) == deleted(p1, ot, tid)
                }
            } else if event.event_type == EVENT_FORK {
                !r && exists|b: bool|
                    event_applied(op, ot, np, nt, tid, pid, comm, *cfg, is_main(tid, pid), apply_fn, b)
            } else if event.event_type == EVENT_RENAME {
                !r && exists|b: bool|
                    event_applied(op, ot, np, nt, tid, pid, comm, *cfg, true, apply_fn, b)
            } else {
                !r && np == op && nt == ot
            }
        }),
{
    let tid = event.tid;
    let pid = event.pid;
    let comm = comm_str(&event.comm);
    if event.event_type == EVENT_EXIT {
        if tid == pid {
            pc.pkgs.remove(&pid);
        }
        pc.task_del(tid);
        true
    } else if event.event_type == EVENT_EXEC {
        pc.pkgs.remove(&pid);
        if !event_apply(pc, tid, pid, comm.as_str(), cfg, true, apply_fn) {
            pc.task_del(tid);
            true
        } else {
            false
        }
    } else if event.event_type == EVENT_FORK {
        let trust = tid == pid;
        assert(trust == is_main(tid, pid));
        event_apply(pc, tid, pid, comm.as_str(), cfg, trust, apply_fn);
        false
    } else if event.event_type == EVENT_RENAME {
        event_apply(pc, tid, pid, comm.as_str(), cfg, true, apply_fn);
        false
    } else {
        false
    }
}

/// Whether `o` is what a full scan saw of process `pid`, given what the
/// readers answered: nothing when `pkg_of` finds no package, when the
/// package is of no interest, or when `threads_of` lists no threads; else
/// the package, whether it has thread rules, and the threads, listed with
/// their names when it has.
pub open spec fn scan_seen<P, T>(pkg_of: P, threads_of: T, cfg: AppConfig, pid: i32, o: Seen) -> bool where
    P: Fn(i32) -> Option<String>,
    T: Fn(i32, bool) -> Option<Vec<(i32, String)>>,
 {
    exists|s: Option<String>|
        #[trigger] pkg_of.ensures((pid,), s) && match s {
            None => o is None,
            Some(k) => if !cfg.interested(k@) {
                o is None
            } else {
                exists|th: Option<Vec<(i32, String)>>|
                    #[trigger] threads_of.ensures((pid, cfg.has_thread_rules(k@)), th) && match th {
                        None => o is None,
                        Some(v) => o == Some((k@, cfg.has_thread_rules(k@), threads_view(v@))),
                    }
            },
        }
}

/// The binding steps for the threads `ths` of process `pid` (package `pkg`,
/// with thread rules or not): (process, package, has thread rules, thread,
/// name), one per thread, in order.
pub open spec fn thread_steps(pid: i32, pkg: Seq<char>, htr: bool, ths: Seq<(i32, Seq<char>)>) -> Seq<
    (i32, Seq<char>, bool, i32, Seq<char>),
> {
    ths.map_values(|t: (i32, Seq<char>)| (pid, pkg, htr, t.0, t.1))
}

/// The binding steps of a full scan over `pids` that saw `obs` of the
/// first of them: the threads of each process seen, in order.
pub open spec fn scan_steps(pids: Seq<i32>, obs: Seq<Seen>) -> Seq<(i32, Seq<char>, bool, i32, Seq<char>)>
    decreases obs.len(),
{
    if obs.len() == 0 {
        Seq::empty()
    } else {
        scan_steps(pids, obs.drop_last()) + match obs.last() {
            Some(o) => thread_steps(pids[obs.len() - 1], o.0, o.1, o.2),
            None => Seq::empty(),
        }
    }
}

/// The process table (as plain values) that such a scan records: every
/// process seen, with its package and whether it has thread rules.
pub open spec fn scan_pkgs(pids: Seq<i32>, obs: Seq<Seen>) -> Map<i32, (Seq<char>, bool)>
    decreases obs.len(),
{
    if obs.len() == 0 {
        Map::empty()
    } else {
        let m = scan_pkgs(pids, obs.drop_last());
        match obs.last() {
            Some(o) => m.insert(pids[obs.len() - 1], (o.0, o.1)),
            None => m,
        }
    }
}

/// Whether the thread tables `ms` are the ones the binding steps `steps`
/// pass through: each step binds its thread as `task_apply` does (names
/// trusted), through `f`, taking `ms[k]` to `ms[k + 1]`.
pub open spec fn applied_chain<F: FnOnce(i32, &CpuSet, &str) -> bool>(
    ms: Seq<Map<i32, TaskEntry>>,
    steps: Seq<(i32, Seq<char>, bool, i32, Seq<char>)>,
    cfg: AppConfig,
    f: F,
) -> bool {
    &&& ms.len() == steps.len() + 1
    &&& forall|k: int| 0 <= k < steps.len() ==> #[trigger] step_applied(ms, steps, k, cfg, f)
}

/// Whether step `k` of `steps` takes the thread table `ms[k]` to `ms[k + 1]`
/// as `task_apply` binds its thread through `f`, whatever `f` answered.
pub open spec fn step_applied<F: FnOnce(i32, &CpuSet, &str) -> bool>(
    ms: Seq<Map<i32, TaskEntry>>,
    steps: Seq<(i32, Seq<char>, bool, i32, Seq<char>)>,
    k: int,
    cfg: AppConfig,
    f: F,
) -> bool {
    exists|r: bool|
        #[trigger] task_applied(
            ms[k],
            ms[k + 1],
            steps[k].3,
            steps[k].0,
            affinity_of(cfg, cfg.topo, steps[k].1, name_seen(steps[k].4, steps[k].2, true)),
            f,
            r,
        )
}

/// Whether a full scan over `pids` that saw `obs`, through the readers
/// `pkg_of` and `threads_of` and the binding `f`, left the process table
/// `pkgs` and the thread table `tasks`, passing through the thread tables
/// `ms` from an empty one.
pub open spec fn full_scan_ran<P, T, F>(
    pids: Seq<i32>,
    obs: Seq<Seen>,
    ms: Seq<Map<i32, TaskEntry>>,
    pkg_of: P,
    threads_of: T,
    f: F,
    cfg: AppConfig,
    pkgs: Map<i32, (String, bool)>,
    tasks: Map<i32, TaskEntry>,
) -> bool where
    P: Fn(i32) -> Option<String>,
    T: Fn(i32, bool) -> Option<Vec<(i32, String)>>,
    F: FnOnce(i32, &CpuSet, &str) -> bool,
 {
    &&& obs.len() == pids.len()
    &&& forall|i: int| 0 <= i < pids.len() ==> scan_seen(pkg_of, threads_of, cfg, pids[i], #[trigger] obs[i])
    &&& pkgs_view(pkgs) == scan_pkgs(pids, obs)
    &&& applied_chain(ms, scan_steps(pids, obs), cfg, f)
    &&& ms[0] == Map::<i32, TaskEntry>::empty()
    &&& tasks == ms.last()
}

/// Rebuilds the cache from the processes `pids` and binds their threads
/// (the event-driven mode's scan at start and after a configuration
/// change): the cache is emptied; each process whose package `pkg_of`
/// finds, of interest, and whose threads `threads_of` lists (with their
/// names when the package has thread rules) has each thread bound in turn
/// as `task_apply` binds it, trusting the names, and is then cached.
pub fn full_scan<P, T, F>(
    pc: &mut ProcCache,
    cfg: &AppConfig,
    pids: &Vec<i32>,
    pkg_of: P,
    threads_of: T,
    apply_fn: F,
) where
    P: Fn(i32) -> Option<String>,
    T: Fn(i32, bool) -> Option<Vec<(i32, String)>>,
    F: Fn(i32, &CpuSet, &str) -> bool + Copy,
    requires
        forall|p: i32| pkg_of.requires((p,)),
        forall|p: i32, b: bool| threads_of.requires((p, b)),
        forall|t: i32, c: &CpuSet, d: &str| apply_fn.requires((t, c, d)),
    ensures
        exists|obs: Seq<Seen>, ms: Seq<Map<i32, TaskEntry>>|
            #[trigger] full_scan_ran(
                pids@,
                obs,
                ms,
                pkg_of,
                threads_of,
                apply_fn,
                *cfg,
                final(pc).pkgs@,
                final(pc).tasks@,
            ),
{
    pc.clear();
    let ghost mut obs: Seq<Seen> = Seq::empty();
    let ghost mut ms: Seq<Map<i32, TaskEntry>> = seq![pc.tasks@];
    proof {
        assert(pkgs_view(pc.pkgs@) =~= scan_pkgs(pids@, obs));
        assert(scan_steps(pids@, obs) =~= Seq::<(i32, Seq<char>, bool, i32, Seq<char>)>::empty());
    }
    let mut i: usize = 0;
    while i < pids.len()
        invariant
            i <= pids@.len(),
            forall|p: i32| pkg_of.requires((p,)),
            forall|p: i32, b: bool| threads_of.requires((p, b)),
            forall|t: i32, c: &CpuSet, d: &str| apply_fn.requires((t, c, d)),
            obs.len() == i,
            forall|j: int| 0 <= j < i ==> scan_seen(pkg_of, threads_of, *cfg, pids@[j], #[trigger] obs[j]),
            pkgs_view(pc.pkgs@) == scan_pkgs(pids@, obs),
            applied_chain(ms, scan_steps(pids@, obs), *cfg, apply_fn),
            ms[0] == Map::<i32, TaskEntry>::empty(),
            pc.tasks@ == ms.last(),
        decreases pids@.len() - i,
    {
        let pid = pids[i];
        let ghost mut o: Seen = None;
        let ghost base = scan_steps(pids@, obs);
        let ghost pk0 = pc.pkgs@;
        let found = pkg_of(pid);
        let ghost fs = found;
        match found {
            Some(pkg) => {
                if cfg.pkg_interested(pkg.as_str()) {
                    let htr = cfg.pkg_has_thread_rules(pkg.as_str());
                    let listed = threads_of(pid, htr);
                    let ghost ls = listed;
                    match listed {
                        Some(threads) => {
                            let ghost tv = threads_view(threads@);
                            let mut k: usize = 0;
                            proof {
                                assert(tv.take(0) =~= Seq::<(i32, Seq<char>)>::empty());
                                assert(base + thread_steps(pid, pkg@, htr, tv.take(0)) =~= base);
                            }
                            while k < threads.len()
                                invariant
                                    k <= threads@.len(),
                                    tv == threads_view(threads@),
                                    forall|t: i32, c: &CpuSet, d: &str| apply_fn.requires((t, c, d)),
                                    applied_chain(ms, base + thread_steps(pid, pkg@, htr, tv.take(k as int)), *cfg, apply_fn),
                                    ms[0] == Map::<i32, TaskEntry>::empty(),
                                    pc.tasks@ == ms.last(),
                                    pc.pkgs@ == pk0,
                                decreases threads@.len() - k,
                            {
                                let tid = threads[k].0;
                                let name = if htr {
                                    threads[k].1.as_str()
                                } else {
                                    ""
                                };
                                let ghost t0 = pc.tasks@;
                                let ghost s0 = base + thread_steps(pid, pkg@, htr, tv.take(k as int));
                                let r = pc.task_apply(tid, pid, pkg.as_str(), name, htr, cfg, true, apply_fn);
                                proof {
                                    let step = (pid, pkg@, htr, tid, tv[k as int].1);
                                    assert(tv[k as int] == (threads@[k as int].0, threads@[k as int].1@));
                                    assert(name_seen(name@, htr, true) == name_seen(step.4, htr, true));
                                    let s1 = base + thread_steps(pid, pkg@, htr, tv.take(k + 1));
                                    assert(tv.take(k + 1) =~= tv.take(k as int).push(tv[k as int]));
                                    assert(s1 =~= s0.push(step));
                                    let ms1 = ms.push(pc.tasks@);
                                    assert forall|j: int| 0 <= j < s1.len() implies #[trigger] step_applied(
                                        ms1,
                                        s1,
                                        j,
                                        *cfg,
                                        apply_fn,
                                    ) by {
                                        if j < s0.len() {
                                            assert(s1[j] == s0[j]);
                                            assert(ms1[j] == ms[j]);
                                            assert(ms1[j + 1] == ms[j + 1]);
                                            assert(step_applied(ms, s0, j, *cfg, apply_fn));
                                        } else {
                                            assert(s1[j] == step);
                                            assert(ms1[j] == t0);
                                            assert(ms1[j + 1] == pc.tasks@);
                                            assert(task_applied(
                                                ms1[j],
                                                ms1[j + 1],
                                                s1[j].3,
                                                s1[j].0,
                                                affinity_of(*cfg, cfg.topo, s1[j].1, name_seen(s1[j].4, s1[j].2, true)),
                                                apply_fn,
                                                r,
                                            ));
                                        }
                                    }
                                    ms = ms1;
                                }
                                k = k + 1;
                            }
                            proof {
                                assert(tv.take(tv.len() as int) =~= tv);
                            }
                            pc.pkgs.insert(pid, (pkg, htr));
                            proof {
                                o = Some((pkg@, htr, tv));
                                assert(threads_of.ensures((pid, cfg.has_thread_rules(pkg@)), ls));
                                assert(pkg_of.ensures((pid,), fs));
                                assert(pkgs_view(pc.pkgs@) =~= pkgs_view(pk0).insert(pid, (pkg@, htr)));
                            }
                        },
                        None => {},
                    }
                    proof {
                        assert(threads_of.ensures((pid, cfg.has_thread_rules(pkg@)), ls));
                    }
                }
            },
            None => {},
        }
        proof {
            assert(pkg_of.ensures((pid,), fs));
            assert(scan_seen(pkg_of, threads_of, *cfg, pid, o));
            let obs1 = obs.push(o);
            assert(obs1.drop_last() =~= obs);
            assert(obs1[i as int] == o);
            obs = obs1;
            assert(scan_steps(pids@, obs) =~= base + match o {
                Some(v) => thread_steps(pid, v.0, v.1, v.2),
                None => Seq::empty(),
            });
            assert(scan_seen(pkg_of, threads_of, *cfg, pids@[i as int], obs[i as int]));
        }
        i = i + 1;
    }
    proof {
        assert(full_scan_ran(pids@, obs, ms, pkg_of, threads_of, apply_fn, *cfg, pc.pkgs@, pc.tasks@));
    }
}

} // verus!
