use std::cell::RefCell;

use aether_optext::bind::{after_retry_error, after_set_error, bind_thread, tasks_path, AfterError, EINVAL, ESRCH};
use aether_optext::cpuset::{CpuSet, CpuTopology};
use aether_optext::common::{base_cpuset, set_base_cpuset, BaseCpuset};
use aether_optext::inotify::{inotify_verdict, IN_CLOSE_WRITE, IN_DELETE_SELF, IN_MOVE_SELF};
use aether_optext::logline::{log_line, rotation_due, size_check_due, MAX_LOG_SIZE};
use aether_optext::proccache::BindOutcome;
use aether_optext::procfs::{cmdline_pkg, comm_name, is_app_status, is_unconfigured_app, unknown_apps};

fn s(x: &str) -> String {
    x.to_string()
}

fn event(mask: u32, name_len: u32, le: bool) -> Vec<u8> {
    let put = |v: u32| if le { v.to_le_bytes() } else { v.to_be_bytes() };
    let mut b = Vec::new();
    b.extend_from_slice(&put(1));
    b.extend_from_slice(&put(mask));
    b.extend_from_slice(&put(0));
    b.extend_from_slice(&put(name_len));
    b.extend(std::iter::repeat(0u8).take(name_len as usize));
    b
}

#[test]
fn base_cpuset_first_valid_name_wins() {
    let mut b = BaseCpuset::new();
    assert_eq!(base_cpuset(&b), "/dev/cpuset/OptExt");
    set_base_cpuset(&mut b, "");
    set_base_cpuset(&mut b, "a/b");
    assert_eq!(base_cpuset(&b), "/dev/cpuset/OptExt");
    set_base_cpuset(&mut b, "Games");
    assert_eq!(base_cpuset(&b), "/dev/cpuset/Games");
    set_base_cpuset(&mut b, "Other");
    assert_eq!(base_cpuset(&b), "/dev/cpuset/Games");
}

#[test]
fn tasks_file_paths() {
    let mut b = BaseCpuset::new();
    set_base_cpuset(&mut b, "OptExt");
    assert_eq!(tasks_path(&b, ""), "/dev/cpuset/OptExt/tasks");
    assert_eq!(tasks_path(&b, "0-3"), "/dev/cpuset/OptExt/0-3/tasks");
}

#[test]
fn failed_binding_next_steps() {
    assert_eq!(after_set_error(ESRCH, true), AfterError::Exited);
    assert_eq!(after_set_error(ESRCH, false), AfterError::Exited);
    assert_eq!(after_set_error(EINVAL, true), AfterError::Retry);
    assert_eq!(after_set_error(EINVAL, false), AfterError::Failed);
    assert_eq!(after_set_error(1, true), AfterError::Failed);
    assert_eq!(after_retry_error(ESRCH), BindOutcome::Exited);
    assert_eq!(after_retry_error(EINVAL), BindOutcome::Failed);
}

#[test]
fn cmdline_first_argument() {
    assert_eq!(cmdline_pkg("com.a.b\0--flag\0"), Some(s("com.a.b")));
    assert_eq!(cmdline_pkg("com.a.b"), Some(s("com.a.b")));
    assert_eq!(cmdline_pkg("\0x"), None);
    assert_eq!(cmdline_pkg(""), None);
}

#[test]
fn comm_file_trimmed() {
    assert_eq!(comm_name("UnityMain\n"), Some(s("UnityMain")));
    assert_eq!(comm_name("  a b \n"), Some(s("a b")));
    assert_eq!(comm_name("\n"), None);
    assert_eq!(comm_name(""), None);
}

#[test]
fn unconfigured_apps() {
    let set = vec![s("com.known")];
    let wild = vec![s("com.tencent.*")];
    assert!(is_unconfigured_app("com.new.app", &set, &wild));
    assert!(!is_unconfigured_app("com.known", &set, &wild));
    assert!(!is_unconfigured_app("com.tencent.mm", &set, &wild));
    assert!(!is_unconfigured_app("/system/bin/sh", &set, &wild));
    assert!(!is_unconfigured_app("zygote", &set, &wild));
    assert!(!is_unconfigured_app("", &set, &wild));
}

#[test]
fn status_uid_of_apps() {
    assert!(is_app_status("Name:\tx\nUid:\t10123\t10123\t10123\t10123\nGid:\t1\n"));
    assert!(!is_app_status("Name:\tx\nUid:\t1000\t1000\t1000\t1000\n"));
    assert!(is_app_status("Uid:\t10000"));
    assert!(!is_app_status("Uid:\t9999\nUid:\t20000\n"));
    assert!(!is_app_status("Name:\tx\n"));
    assert!(!is_app_status("Uid:\tabc\n"));
    assert!(!is_app_status("Uid:\n"));
    assert!(is_app_status("Uid: +10001\n"));
    assert!(!is_app_status("Uid:\t99999999999\n"));
    assert!(is_app_status("Name:\tx\n Uid: 1\nUid:   4294967295 \n"));
}

#[test]
fn log_line_format() {
    assert_eq!(log_line('I', 0, 5, 7, 3, 9, "hello"), "[I] 01-05 07:03:09: hello\n");
    assert_eq!(log_line('E', 11, 31, 23, 59, 58, ""), "[E] 12-31 23:59:58: \n");
    assert_eq!(log_line('W', 9, 10, 10, 10, 10, "x"), "[W] 10-10 10:10:10: x\n");
    assert_eq!(log_line('I', -1, -3, 0, 100, -12, "m"), "[I] 00--3 00:100:-12: m\n");
}

#[test]
fn log_rotation_schedule() {
    assert!(size_check_due(0));
    assert!(size_check_due(512));
    assert!(size_check_due(1024));
    assert!(!size_check_due(513));
    assert!(!rotation_due(MAX_LOG_SIZE));
    assert!(rotation_due(MAX_LOG_SIZE + 1));
    assert!(!rotation_due(0));
}

#[test]
fn inotify_batches() {
    assert_eq!(inotify_verdict(&[], true), None);
    assert_eq!(inotify_verdict(&event(IN_CLOSE_WRITE, 0, true), true), Some(1));
    assert_eq!(inotify_verdict(&event(IN_DELETE_SELF, 0, true), true), Some(2));
    assert_eq!(inotify_verdict(&event(IN_MOVE_SELF, 16, true), true), Some(2));
    assert_eq!(inotify_verdict(&event(0x2, 0, true), true), None);
    let mut two = event(0x2, 16, true);
    two.extend(event(IN_CLOSE_WRITE, 0, true));
    assert_eq!(inotify_verdict(&two, true), Some(1));
    two.extend(event(IN_MOVE_SELF, 0, true));
    assert_eq!(inotify_verdict(&two, true), Some(2));
    assert_eq!(inotify_verdict(&event(IN_CLOSE_WRITE, 0, false), false), Some(1));
    // A truncated header is not read.
    let short = event(IN_CLOSE_WRITE, 0, true);
    assert_eq!(inotify_verdict(&short[..15], true), None);
}

fn bind_with(
    cur: Option<&str>,
    answers: Vec<Result<(), i32>>,
    enabled: bool,
) -> (BindOutcome, Vec<String>, usize) {
    let mut base = BaseCpuset::new();
    set_base_cpuset(&mut base, "OptExt");
    let topo = CpuTopology { present_cpus: CpuSet::from_range("0-7"), cpuset_enabled: enabled };
    let cpus = CpuSet::from_range("4-7");
    let writes = RefCell::new(Vec::new());
    let sets = RefCell::new(0usize);
    let answers = RefCell::new(answers);
    let o = bind_thread(
        42,
        &cpus,
        "4-7",
        &topo,
        &base,
        |_: i32| cur.map(CpuSet::from_range),
        |p: &str, t: i32| writes.borrow_mut().push(format!("{}<{}", p, t)),
        |_: i32, _: &CpuSet| {
            *sets.borrow_mut() += 1;
            answers.borrow_mut().remove(0)
        },
    );
    let w = writes.borrow().clone();
    let n = *sets.borrow();
    (o, w, n)
}

#[test]
fn binding_steps() {
    let path = s("/dev/cpuset/OptExt/4-7/tasks<42");
    assert_eq!(bind_with(Some("4-7"), vec![], true), (BindOutcome::Bound, vec![], 0));
    assert_eq!(bind_with(Some("0-3"), vec![Ok(())], true), (BindOutcome::Bound, vec![path.clone()], 1));
    assert_eq!(bind_with(None, vec![Ok(())], false), (BindOutcome::Bound, vec![], 1));
    assert_eq!(bind_with(None, vec![Err(ESRCH)], true), (BindOutcome::Exited, vec![path.clone()], 1));
    assert_eq!(bind_with(None, vec![Err(EINVAL)], false), (BindOutcome::Failed, vec![], 1));
    assert_eq!(bind_with(None, vec![Err(1)], true), (BindOutcome::Failed, vec![path.clone()], 1));
    assert_eq!(
        bind_with(None, vec![Err(EINVAL), Ok(())], true),
        (BindOutcome::Bound, vec![path.clone(), path.clone()], 2)
    );
    assert_eq!(
        bind_with(None, vec![Err(EINVAL), Err(EINVAL)], true),
        (BindOutcome::Failed, vec![path.clone(), path.clone()], 2)
    );
    assert_eq!(bind_with(None, vec![Err(EINVAL), Err(ESRCH)], true), (BindOutcome::Exited, vec![path.clone(), path], 2));
}

#[test]
fn unknown_app_walk() {
    let set = vec![s("com.known")];
    let wild = vec![s("com.tencent.*")];
    let cmdline = |pid: i32| match pid {
        500 | 1500 => Some(s("com.sys.app\0")),
        2000 => Some(s("com.new.app\0--x\0")),
        3000 => Some(s("com.known\0")),
        4000 => Some(s("com.tencent.mm\0")),
        5000 => Some(s("com.other.app\0")),
        6000 => Some(s("com.empty.app\0")),
        7000 => Some(s("/system/bin/sh\0")),
        _ => None,
    };
    let status = |pid: i32| match pid {
        1500 => Some(s("Uid:\t1000\n")),
        8000 => None,
        _ => Some(s("Name:\tx\nUid:\t10100\t10100\n")),
    };
    let threads = |pid: i32| if pid == 6000 { vec![] } else { vec![(pid, s("main")), (pid + 1, s("w"))] };
    let pids = vec![500, 1500, 2000, 3000, 4000, 5000, 6000, 7000, 8000, 9000];
    let r = unknown_apps(&pids, &set, &wild, cmdline, status, threads);
    let got: Vec<(i32, String, usize)> = r.iter().map(|(p, k, t)| (*p, k.clone(), t.len())).collect();
    assert_eq!(got, vec![(2000, s("com.new.app"), 2), (5000, s("com.other.app"), 2)]);
}
