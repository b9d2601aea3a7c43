use std::cell::RefCell;
use std::collections::HashSet;

use aether_optext::config::{AppConfig, Rule};
use aether_optext::cpuset::{CpuSet, CpuTopology};
use aether_optext::events::{
    comm_str, event_apply, event_dispatch, full_scan, EbpfProcEvent, EVENT_EXEC, EVENT_EXIT, EVENT_FORK,
    EVENT_RENAME,
};
use aether_optext::proccache::{BindOutcome, ProcCache};
use aether_optext::procsync::ProcState;

const GAME: &str = "com.miHoYo.Yuanshen";

fn s(x: &str) -> String {
    x.to_string()
}

fn rule(pkg: &str, thread: &str, cpus: &str) -> Rule {
    Rule { pkg: s(pkg), thread: s(thread), cpus: s(cpus), cpuset_dir: String::new() }
}

fn cfg() -> AppConfig {
    AppConfig {
        rules: vec![rule(GAME, "", "0-5"), rule(GAME, "UnityMain", "6-7"), rule("com.plain", "", "0-3")],
        pkg_set: vec![s(GAME), s("com.plain")],
        wild: vec![],
        asoul_ignore: vec![s("com.game.x")],
        topo: CpuTopology { present_cpus: CpuSet::from_range("0-7"), cpuset_enabled: false },
        ebpf: true,
        auto_for_none: false,
    }
}

fn comm(name: &str) -> [u8; 16] {
    let mut c = [0u8; 16];
    for (i, b) in name.bytes().take(16).enumerate() {
        c[i] = b;
    }
    c
}

fn ev(event_type: u32, tid: i32, pid: i32, name: &str) -> EbpfProcEvent {
    EbpfProcEvent { event_type, tid, pid, comm: comm(name) }
}

#[test]
fn comm_buffer_to_name() {
    assert_eq!(comm_str(&comm("UnityMain")), "UnityMain");
    assert_eq!(comm_str(&comm("  Render  ")), "Render");
    assert_eq!(comm_str(&comm("0123456789abcdef")), "0123456789abcdef");
    assert_eq!(comm_str(&[0u8; 16]), "");
    let mut bad = comm("ab");
    bad[1] = 0xff;
    assert_eq!(comm_str(&bad), "");
    let mut after_nul = comm("ab");
    after_nul[5] = b'z';
    assert_eq!(comm_str(&after_nul), "ab");
}

#[test]
fn new_and_clear_are_empty() {
    let mut pc = ProcCache::new();
    assert!(pc.pkgs.is_empty() && pc.tasks.is_empty());
    pc.pkgs.insert(1, (s("x"), false));
    pc.clear();
    assert!(pc.pkgs.is_empty() && pc.tasks.is_empty());
}

#[test]
fn lookup_by_comm_is_cached() {
    let cfg = cfg();
    let mut pc = ProcCache::new();
    assert_eq!(pc.pkg_lookup_comm(100, "com.miHoYo.Yuan", &cfg), Some((s(GAME), true)));
    assert_eq!(pc.pkgs.get(&100), Some(&(s(GAME), true)));
    // The cached package answers whatever the name.
    assert_eq!(pc.pkg_lookup_comm(100, "other", &cfg), Some((s(GAME), true)));
    assert_eq!(pc.pkg_lookup_comm(200, "com.plain", &cfg), Some((s("com.plain"), false)));
    assert_eq!(pc.pkg_lookup_comm(300, "unknown", &cfg), None);
    assert!(!pc.pkgs.contains_key(&300));
}

#[test]
fn apply_binds_and_records() {
    let cfg = cfg();
    let mut pc = ProcCache::new();
    let calls = RefCell::new(Vec::new());
    let ok = pc.task_apply(101, 100, GAME, "UnityMain", true, &cfg, true, |t: i32, c: &CpuSet, d: &str| {
        calls.borrow_mut().push((t, c.cpus(), d.to_string()));
        false
    });
    assert!(ok);
    assert_eq!(calls.borrow().clone(), vec![(101, vec![6, 7], s(""))]);
    let e = pc.tasks.get(&101).unwrap();
    assert_eq!(e.pid, 100);
    assert_eq!(e.cpus.cpus(), vec![6, 7]);
    assert!(e.is_thread_rule);
    assert!(!e.failed);
}

#[test]
fn exited_thread_is_not_recorded() {
    let cfg = cfg();
    let mut pc = ProcCache::new();
    let ok = pc.task_apply(101, 100, GAME, "UnityMain", true, &cfg, true, |_: i32, _: &CpuSet, _: &str| true);
    assert!(!ok);
    assert!(!pc.tasks.contains_key(&101));
}

#[test]
fn unbound_package_is_not_applied() {
    let cfg = cfg();
    let mut pc = ProcCache::new();
    let called = RefCell::new(false);
    let ok = pc.task_apply(5, 5, "com.none", "x", false, &cfg, true, |_: i32, _: &CpuSet, _: &str| {
        *called.borrow_mut() = true;
        false
    });
    assert!(!ok);
    assert!(!*called.borrow());
    let ok = pc.task_apply(6, 6, "com.game.x", "x", false, &cfg, true, |_: i32, _: &CpuSet, _: &str| false);
    assert!(!ok);
    assert!(pc.tasks.is_empty());
}

#[test]
fn fallback_never_replaces_thread_rule_binding() {
    let cfg = cfg();
    let mut pc = ProcCache::new();
    assert!(pc.task_apply(101, 100, GAME, "UnityMain", true, &cfg, true, |_: i32, _: &CpuSet, _: &str| false));
    let called = RefCell::new(false);
    // A fork: the name is not trusted, so the fallback applies; it must not win.
    let ok = pc.task_apply(101, 100, GAME, "UnityMain", true, &cfg, false, |_: i32, _: &CpuSet, _: &str| {
        *called.borrow_mut() = true;
        false
    });
    assert!(ok);
    assert!(!*called.borrow());
    assert_eq!(pc.tasks.get(&101).unwrap().cpus.cpus(), vec![6, 7]);
    // A rename to an unmatched name also keeps the thread rule binding.
    assert!(pc.task_apply(101, 100, GAME, "Worker", true, &cfg, true, |_: i32, _: &CpuSet, _: &str| false));
    assert!(pc.tasks.get(&101).unwrap().is_thread_rule);
}

#[test]
fn names_ignored_without_thread_rules() {
    let cfg = cfg();
    let mut pc = ProcCache::new();
    assert!(pc.task_apply(7, 7, GAME, "UnityMain", false, &cfg, true, |_: i32, _: &CpuSet, _: &str| false));
    assert_eq!(pc.tasks.get(&7).unwrap().cpus.to_range_string(), "0-5");
    assert!(!pc.tasks.get(&7).unwrap().is_thread_rule);
}

#[test]
fn task_del_purges_process_with_last_thread() {
    let cfg = cfg();
    let mut pc = ProcCache::new();
    pc.pkgs.insert(100, (s(GAME), true));
    pc.task_apply(100, 100, GAME, "", true, &cfg, true, |_: i32, _: &CpuSet, _: &str| false);
    pc.task_apply(101, 100, GAME, "", true, &cfg, true, |_: i32, _: &CpuSet, _: &str| false);
    pc.task_del(100);
    assert!(!pc.tasks.contains_key(&100));
    assert!(pc.pkgs.contains_key(&100));
    pc.task_del(101);
    assert!(pc.tasks.is_empty());
    assert!(!pc.pkgs.contains_key(&100));
    pc.task_del(999);
    assert!(pc.tasks.is_empty());
}

#[test]
fn periodic_pass_marks_failures_and_forgets_exits() {
    let cfg = cfg();
    let mut pc = ProcCache::new();
    pc.pkgs.insert(100, (s(GAME), true));
    for tid in [100, 101, 102] {
        pc.task_record(tid, 100, GAME, "", true, &cfg);
    }
    let mut plan: Vec<i32> = pc.affinity_plan().iter().map(|p| p.0).collect();
    plan.sort();
    assert_eq!(plan, vec![100, 101, 102]);
    let outcomes = vec![(100, BindOutcome::Bound), (101, BindOutcome::Failed), (102, BindOutcome::Exited)];
    let (bound, dead) = pc.affinity_sync(&outcomes);
    assert_eq!(bound, 1);
    assert_eq!(dead, vec![102]);
    assert!(!pc.tasks.contains_key(&102));
    assert!(pc.tasks.get(&101).unwrap().failed);
    assert!(!pc.tasks.get(&100).unwrap().failed);
    let plan: Vec<i32> = pc.affinity_plan().iter().map(|p| p.0).collect();
    assert_eq!(plan, vec![100]);
    assert!(pc.pkgs.contains_key(&100));
}

#[test]
fn plan_carries_cpus_and_group() {
    let mut cfg = cfg();
    cfg.rules[0].cpuset_dir = s("games");
    let mut pc = ProcCache::new();
    pc.task_record(100, 100, GAME, "", true, &cfg);
    let plan = pc.affinity_plan();
    assert_eq!(plan.len(), 1);
    assert_eq!(plan[0].0, 100);
    assert_eq!(plan[0].1.to_range_string(), "0-5");
    assert_eq!(plan[0].2, "games");
}

#[test]
fn record_does_not_bind() {
    let cfg = cfg();
    let mut pc = ProcCache::new();
    assert!(pc.task_record(9, 9, GAME, "UnityMain", true, &cfg));
    assert_eq!(pc.tasks.get(&9).unwrap().cpus.cpus(), vec![6, 7]);
    assert!(!pc.task_record(10, 10, "com.none", "", false, &cfg));
}

#[test]
fn event_apply_finds_package_by_comm() {
    let cfg = cfg();
    let mut pc = ProcCache::new();
    assert!(event_apply(&mut pc, 100, 100, "com.miHoYo.Yuan", &cfg, true, |_: i32, _: &CpuSet, _: &str| false));
    assert!(pc.pkgs.contains_key(&100));
    // The main thread's name is the package's, not a thread rule name.
    assert_eq!(pc.tasks.get(&100).unwrap().cpus.to_range_string(), "0-5");
    assert!(!event_apply(&mut pc, 300, 300, "unknown", &cfg, true, |_: i32, _: &CpuSet, _: &str| false));
    assert!(!pc.tasks.contains_key(&300));
}

#[test]
fn dispatch_exec_fork_rename_exit() {
    let cfg = cfg();
    let mut pc = ProcCache::new();
    let nop = |_: i32, _: &CpuSet, _: &str| false;
    // exec of the game's main thread
    assert!(!event_dispatch(&ev(EVENT_EXEC, 100, 100, "com.miHoYo.Yuan"), &cfg, &mut pc, nop));
    assert_eq!(pc.pkgs.get(&100), Some(&(s(GAME), true)));
    assert!(pc.tasks.contains_key(&100));
    // a forked thread carries its parent's name: fallback binding
    assert!(!event_dispatch(&ev(EVENT_FORK, 101, 100, "UnityMain"), &cfg, &mut pc, nop));
    assert_eq!(pc.tasks.get(&101).unwrap().cpus.to_range_string(), "0-5");
    // the rename gives its own name: thread rule binding
    assert!(!event_dispatch(&ev(EVENT_RENAME, 101, 100, "UnityMain"), &cfg, &mut pc, nop));
    assert_eq!(pc.tasks.get(&101).unwrap().cpus.to_range_string(), "6-7");
    // unknown kinds change nothing
    assert!(!event_dispatch(&ev(99, 101, 100, "x"), &cfg, &mut pc, nop));
    assert_eq!(pc.tasks.len(), 2);
    // a thread exits
    assert!(event_dispatch(&ev(EVENT_EXIT, 101, 100, "UnityMain"), &cfg, &mut pc, nop));
    assert!(!pc.tasks.contains_key(&101));
    assert!(pc.pkgs.contains_key(&100));
    // the main thread exits: the process goes
    assert!(event_dispatch(&ev(EVENT_EXIT, 100, 100, "com.miHoYo.Yuan"), &cfg, &mut pc, nop));
    assert!(pc.tasks.is_empty());
    assert!(pc.pkgs.is_empty());
}

#[test]
fn dispatch_exec_of_unknown_forgets() {
    let cfg = cfg();
    let mut pc = ProcCache::new();
    let nop = |_: i32, _: &CpuSet, _: &str| false;
    assert!(!event_dispatch(&ev(EVENT_EXEC, 100, 100, "com.miHoYo.Yuan"), &cfg, &mut pc, nop));
    // the process execs something else
    assert!(event_dispatch(&ev(EVENT_EXEC, 100, 100, "sh"), &cfg, &mut pc, nop));
    assert!(pc.tasks.is_empty());
    assert!(pc.pkgs.is_empty());
}

#[test]
fn observe_process_counts() {
    let mut st = ProcState::new();
    assert!(st.scan_all_proc);
    assert!(st.observe_procs(Some(100)));
    assert_eq!(st.last_proc_count, 100);
    st.scan_all_proc = false;
    assert!(!st.observe_procs(Some(100)));
    assert!(st.observe_procs(Some(101)));
    assert_eq!(st.last_proc_count, 101);
    assert!(st.observe_procs(Some(99)));
    assert!(!st.observe_procs(Some(99)));
    assert!(!st.force_affinity);
    assert!(st.observe_procs(None));
    assert_eq!(st.last_proc_count, 99);
}

#[test]
fn rescan_filters_and_records() {
    let cfg = cfg();
    assert_eq!(ProcState::scan_filter(&cfg, GAME), Some(true));
    assert_eq!(ProcState::scan_filter(&cfg, "com.plain:svc"), Some(false));
    assert_eq!(ProcState::scan_filter(&cfg, "com.game.x"), None);
    assert_eq!(ProcState::scan_filter(&cfg, "com.none"), None);

    let mut st = ProcState::new();
    assert!(st.wants_pid(5));
    let mut kept = HashSet::new();
    let threads = vec![(100, s("main")), (101, s("UnityMain"))];
    assert!(st.record_process(&cfg, 100, GAME, true, &threads, &mut kept));
    assert!(kept.contains(&100));
    assert_eq!(st.cache.pkgs.get(&100), Some(&(s(GAME), true)));
    assert_eq!(st.cache.tasks.get(&101).unwrap().cpus.cpus(), vec![6, 7]);
    assert_eq!(st.cache.tasks.get(&100).unwrap().cpus.to_range_string(), "0-5");
    assert!(!st.record_process(&cfg, 200, "com.none", false, &vec![(200, s("x"))], &mut kept));
    assert!(!kept.contains(&200));

    st.last_proc_total = 50;
    st.finish_rescan(60, kept);
    assert!(st.scan_all_proc);
    assert!(st.force_affinity);
    assert_eq!(st.last_proc_total, 60);
    assert!(st.wants_pid(100));
    st.finish_rescan(40, HashSet::new());
    assert!(!st.scan_all_proc);
    assert!(!st.wants_pid(100));
}

#[test]
fn affinity_pass_binds_unfailed_threads() {
    let cfg = cfg();
    let mut pc = ProcCache::new();
    pc.pkgs.insert(100, (s(GAME), true));
    for tid in [100, 101, 102] {
        pc.task_record(tid, 100, GAME, "", true, &cfg);
    }
    let seen = RefCell::new(Vec::new());
    let (bound, dead) = pc.affinity_pass(|t: i32, c: &CpuSet, _: &str| {
        seen.borrow_mut().push((t, c.to_range_string()));
        match t {
            100 => BindOutcome::Bound,
            101 => BindOutcome::Failed,
            _ => BindOutcome::Exited,
        }
    });
    let mut calls = seen.borrow().clone();
    calls.sort();
    assert_eq!(calls, vec![(100, s("0-5")), (101, s("0-5")), (102, s("0-5"))]);
    assert_eq!(bound, 1);
    assert_eq!(dead, vec![102]);
    assert!(pc.tasks.get(&101).unwrap().failed);
    seen.borrow_mut().clear();
    let (bound, dead) = pc.affinity_pass(|t: i32, _: &CpuSet, _: &str| {
        seen.borrow_mut().push((t, s("")));
        BindOutcome::Bound
    });
    assert_eq!((bound, dead), (1, vec![]));
    assert_eq!(seen.borrow().len(), 1);
}

fn pkg_table(pid: i32) -> Option<String> {
    match pid {
        100 => Some(s(GAME)),
        200 => Some(s("com.plain")),
        300 => Some(s("com.game.x")),
        400 => Some(s("com.none")),
        _ => None,
    }
}

fn thread_table(pid: i32, named: bool) -> Option<Vec<(i32, String)>> {
    let name = |n: &str| if named { s(n) } else { String::new() };
    match pid {
        100 => Some(vec![(100, name("main")), (101, name("UnityMain"))]),
        200 => Some(vec![(200, name("x"))]),
        300 => Some(vec![(300, name("y"))]),
        _ => None,
    }
}

#[test]
fn rebuild_records_wanted_processes() {
    let cfg = cfg();
    let mut st = ProcState::new();
    st.last_proc_total = 3;
    st.rebuild(&cfg, &vec![1, 100, 200, 300, 400, 500], pkg_table, thread_table);
    let mut kept: Vec<i32> = st.tracked_pids.iter().cloned().collect();
    kept.sort();
    assert_eq!(kept, vec![100, 200]);
    assert_eq!(st.cache.pkgs.get(&100), Some(&(s(GAME), true)));
    assert_eq!(st.cache.pkgs.get(&200), Some(&(s("com.plain"), false)));
    assert_eq!(st.cache.tasks.get(&101).unwrap().cpus.cpus(), vec![6, 7]);
    assert_eq!(st.cache.tasks.get(&200).unwrap().cpus.to_range_string(), "0-3");
    assert_eq!(st.cache.tasks.len(), 3);
    assert!(st.cache.tasks.values().all(|e| !e.failed && e.pid == 100 || !e.failed && e.pid == 200));
    assert_eq!(st.last_proc_total, 6);
    assert!(st.scan_all_proc);
    assert!(st.force_affinity);
    // Only kept processes are looked at when no full scan is pending.
    st.last_proc_total = 10;
    st.rebuild(&cfg, &vec![100, 200], pkg_table, thread_table);
    assert!(!st.scan_all_proc);
    st.rebuild(&cfg, &vec![200, 100], |p: i32| if p == 100 { None } else { pkg_table(p) }, thread_table);
    let kept: Vec<i32> = st.tracked_pids.iter().cloned().collect();
    assert_eq!(kept, vec![200]);
}

#[test]
fn sync_rebuilds_on_count_change_or_gone_process() {
    let cfg = cfg();
    let mut st = ProcState::new();
    let list = || vec![100, 200];
    assert!(st.sync(&cfg, Some(50), |_: i32| false, list, pkg_table, thread_table));
    assert_eq!(st.last_proc_count, 50);
    // The process total grew from 0 to 2: a full scan follows.
    assert!(st.scan_all_proc);
    assert!(st.sync(&cfg, Some(50), |_: i32| false, list, pkg_table, thread_table));
    assert!(!st.scan_all_proc);
    assert!(!st.sync(&cfg, Some(50), |_: i32| false, list, pkg_table, thread_table));
    assert!(st.sync(&cfg, Some(51), |_: i32| false, list, pkg_table, thread_table));
    assert!(st.sync(&cfg, Some(51), |p: i32| p == 200, list, pkg_table, thread_table));
    assert!(st.sync(&cfg, None, |_: i32| false, list, pkg_table, thread_table));
    assert_eq!(st.cache.pkgs.len(), 2);
}

#[test]
fn gone_tracked_processes() {
    let mut st = ProcState::new();
    assert!(!st.tracked_gone(|_: i32| true));
    st.tracked_pids.insert(5);
    st.tracked_pids.insert(6);
    assert!(st.tracked_gone(|p: i32| p == 6));
    assert!(!st.tracked_gone(|p: i32| p == 7));
}

#[test]
fn full_scan_binds_and_caches() {
    let cfg = cfg();
    let mut pc = ProcCache::new();
    pc.pkgs.insert(999, (s("stale"), false));
    let bound = RefCell::new(Vec::new());
    full_scan(&mut pc, &cfg, &vec![1, 100, 200, 300, 400], pkg_table, thread_table, |t: i32, c: &CpuSet, _: &str| {
        bound.borrow_mut().push((t, c.to_range_string()));
        t == 200
    });
    assert_eq!(
        bound.borrow().clone(),
        vec![(100, s("0-5")), (101, s("6-7")), (200, s("0-3"))]
    );
    let mut cached: Vec<i32> = pc.pkgs.keys().cloned().collect();
    cached.sort();
    assert_eq!(cached, vec![100, 200]);
    assert!(pc.tasks.contains_key(&100) && pc.tasks.contains_key(&101));
    // Thread 200 exited while being bound.
    assert!(!pc.tasks.contains_key(&200));
}

#[test]
fn rebuild_starts_from_an_empty_cache() {
    let cfg = cfg();
    let mut st = ProcState::new();
    st.rebuild(&cfg, &vec![100], pkg_table, thread_table);
    let (bound, dead) = st.cache.affinity_pass(|_: i32, _: &CpuSet, _: &str| BindOutcome::Failed);
    assert_eq!((bound, dead), (0, vec![]));
    assert!(st.cache.tasks.values().all(|e| e.failed));
    st.cache.task_record(77, 77, "com.plain", "", false, &cfg);
    st.scan_all_proc = true;
    st.rebuild(&cfg, &vec![100], pkg_table, thread_table);
    let mut tids: Vec<i32> = st.cache.tasks.keys().cloned().collect();
    tids.sort();
    assert_eq!(tids, vec![100, 101]);
    assert!(st.cache.tasks.values().all(|e| !e.failed));
}

#[test]
fn full_scan_drops_old_entries() {
    let cfg = cfg();
    let mut pc = ProcCache::new();
    pc.task_record(102, 100, GAME, "", true, &cfg);
    full_scan(&mut pc, &cfg, &vec![100], pkg_table, thread_table, |_: i32, _: &CpuSet, _: &str| false);
    let mut tids: Vec<i32> = pc.tasks.keys().cloned().collect();
    tids.sort();
    assert_eq!(tids, vec![100, 101]);
    assert_eq!(pc.pkgs.get(&100), Some(&(s(GAME), true)));
}
