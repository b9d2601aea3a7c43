//! The decisions of one binding attempt: where the thread's id is written
//! in the cpuset hierarchy, and what a failed `sched_setaffinity` leads to.
use vstd::prelude::*;

use crate::common::{base_cpuset, base_path, BaseCpuset};
use crate::cpuset::{CpuSet, CpuTopology};
use crate::proccache::BindOutcome;
use crate::text::push_char;

verus! {

/// The error of a thread that no longer exists.
pub const ESRCH: i32 = 3;

/// The error of a mask the thread's cpuset does not allow.
pub const EINVAL: i32 = 22;

/// The `tasks` file of the cpuset group `dir` under the base group `base`
/// (that of the base group itself when `dir` is empty).
pub open spec fn tasks_file(base: Seq<char>, dir: Seq<char>) -> Seq<char> {
    if dir.len() == 0 {
        base + "/tasks"@
    } else {
        base + seq!['/'] + dir + "/tasks"@
    }
}

/// The `tasks` file of the cpuset group `dir`; see `tasks_file`.
pub fn tasks_path(base: &BaseCpuset, dir: &str) -> (r: String)
    ensures
        r@ == tasks_file(base_path(base@), dir@),
{
    let mut p = base_cpuset(base);
    if !dir.is_empty() {
        push_char(&mut p, '/');
        p.append(dir);
    }
    p.append("/tasks");
    p
}

/// What follows a failed first `sched_setaffinity` with error `errno`: an
/// exited thread is done with; an `EINVAL` under a mounted cpuset hierarchy
/// is retried once the id is written to the group again; anything else is
/// a failure.
#[derive(Clone, Copy, Debug, PartialEq, Eq)]
pub enum AfterError {
    Exited,
    Retry,
    Failed,
}

/// The step after a failed first attempt; see `AfterError`.
pub fn after_set_error(errno: i32, cpuset_enabled: bool) -> (r: AfterError)
    ensures
        r == (if errno == ESRCH {
            AfterError::Exited
        } else if errno == EINVAL && cpuset_enabled {
            AfterError::Retry
        } else {
            AfterError::Failed
        }),
{
    if errno == ESRCH {
        AfterError::Exited
    } else if errno == EINVAL && cpuset_enabled {
        AfterError::Retry
    } else {
        AfterError::Failed
    }
}

/// The outcome of a retried attempt that failed with error `errno`.
pub fn after_retry_error(errno: i32) -> (r: BindOutcome)
    ensures
        r == (if errno == ESRCH {
            BindOutcome::Exited
        } else {
            BindOutcome::Failed
        }),
{
    if errno == ESRCH {
        BindOutcome::Exited
    } else {
        BindOutcome::Failed
    }
}

/// Whether `write` was asked to add thread `tid` to the `tasks` file of the
/// cpuset group `dir` under `base`.
pub open spec fn wrote_tasks<W: Fn(&str, i32)>(write: W, base: Option<Seq<char>>, dir: Seq<char>, tid: i32) -> bool {
    exists|p: &str| p@ == tasks_file(base_path(base), dir) && #[trigger] write.ensures((p, tid), ())
}

/// What one binding attempt of thread `tid` to `cpus` came to, and which
/// calls it made, given what the system answered: `cur`, the thread's mask
/// before; `e1`, the first `sched_setaffinity`; `e2`, the retry. A thread
/// already on `cpus` is bound with no further call. Otherwise, under a
/// mounted cpuset hierarchy, its id is first written to the group's
/// `tasks` file; then the mask is set. An error leads on as
/// `after_set_error` says; a retry writes the id again and sets the mask
/// once more, its error read by `after_retry_error`.
pub open spec fn attempt<G, W, S>(
    get: G,
    write: W,
    set: S,
    tid: i32,
    cpus: CpuSet,
    dir: Seq<char>,
    topo: CpuTopology,
    base: Option<Seq<char>>,
    cur: Option<CpuSet>,
    e1: Result<(), i32>,
    e2: Result<(), i32>,
    r: BindOutcome,
) -> bool where G: Fn(i32) -> Option<CpuSet>, W: Fn(&str, i32), S: Fn(i32, &CpuSet) -> Result<(), i32> {
    &&& get.ensures((tid,), cur)
    &&& if cur matches Some(c) && c@ == cpus@ {
        r == BindOutcome::Bound
    } else {
        &&& topo.cpuset_enabled ==> wrote_tasks(write, base, dir, tid)
        &&& set.ensures((tid, &cpus), e1)
        &&& match e1 {
            Ok(_) => r == BindOutcome::Bound,
            Err(e) => if e == ESRCH {
                r == BindOutcome::Exited
            } else if e == EINVAL && topo.cpuset_enabled {
                &&& set.ensures((tid, &cpus), e2)
                &&& match e2 {
                    Ok(_) => r == BindOutcome::Bound,
                    Err(x) => r == after_retry(x),
                }
            } else {
                r == BindOutcome::Failed
            },
        }
    }
}

/// The outcome of a retry that failed with error `errno`.
pub open spec fn after_retry(errno: i32) -> BindOutcome {
    if errno == ESRCH {
        BindOutcome::Exited
    } else {
        BindOutcome::Failed
    }
}

/// A thread is left unbound without a call only when it already runs on
/// exactly its CPUs: whenever its mask was unknown or differed from `cpus`
/// (a wider mask included), the attempt set the mask to `cpus`, after
/// writing the thread's id to its group's `tasks` file when the cpuset
/// hierarchy is mounted.
pub proof fn lemma_binds_unless_on_target<G, W, S>(
    get: G,
    write: W,
    set: S,
    tid: i32,
    cpus: CpuSet,
    dir: Seq<char>,
    topo: CpuTopology,
    base: Option<Seq<char>>,
    cur: Option<CpuSet>,
    e1: Result<(), i32>,
    e2: Result<(), i32>,
    r: BindOutcome,
) where G: Fn(i32) -> Option<CpuSet>, W: Fn(&str, i32), S: Fn(i32, &CpuSet) -> Result<(), i32>
    requires
        attempt(get, write, set, tid, cpus, dir, topo, base, cur, e1, e2, r),
        !(cur matches Some(c) && c@ == cpus@),
    ensures
        set.ensures((tid, &cpus), e1),
        topo.cpuset_enabled ==> wrote_tasks(write, base, dir, tid),
        r == BindOutcome::Bound ==> e1 is Ok || e2 is Ok,
{
}

/// Binds thread `tid` to `cpus`, moving it into the cpuset group `dir`,
/// through the system calls given: `get` reads the thread's mask, `write`
/// adds an id to a `tasks` file, `set` sets the mask (answering the error
/// number on failure). See `attempt` for the steps.
pub fn bind_thread<G, W, S>(
    tid: i32,
    cpus: &CpuSet,
    dir: &str,
    topo: &CpuTopology,
    base: &BaseCpuset,
    get: G,
    write: W,
    set: S,
) -> (r: BindOutcome) where
    G: Fn(i32) -> Option<CpuSet>,
    W: Fn(&str, i32),
    S: Fn(i32, &CpuSet) -> Result<(), i32>,
    requires
        forall|t: i32| get.requires((t,)),
        forall|p: &str, t: i32| write.requires((p, t)),
        forall|t: i32, c: &CpuSet| set.requires((t, c)),
    ensures
        exists|cur: Option<CpuSet>, e1: Result<(), i32>, e2: Result<(), i32>|
            #[trigger] attempt(get, write, set, tid, *cpus, dir@, *topo, base@, cur, e1, e2, r),
{
    let cur = get(tid);
    let already = match &cur {
        Some(c) => c.same(cpus),
        None => false,
    };
    if already {
        assert(attempt(get, write, set, tid, *cpus, dir@, *topo, base@, cur, Ok(()), Ok(()), BindOutcome::Bound));
        return BindOutcome::Bound;
    }
    if topo.cpuset_enabled {
        let p = tasks_path(base, dir);
        write(p.as_str(), tid);
        assert(wrote_tasks(write, base@, dir@, tid));
    }
    let e1 = set(tid, cpus);
    match e1 {
        Ok(()) => {
            assert(attempt(get, write, set, tid, *cpus, dir@, *topo, base@, cur, e1, Ok(()), BindOutcome::Bound));
            BindOutcome::Bound
        },
        Err(e) => match after_set_error(e, topo.cpuset_enabled) {
            AfterError::Exited => {
                assert(attempt(get, write, set, tid, *cpus, dir@, *topo, base@, cur, e1, Ok(()), BindOutcome::Exited));
                BindOutcome::Exited
            },
            AfterError::Failed => {
                assert(attempt(get, write, set, tid, *cpus, dir@, *topo, base@, cur, e1, Ok(()), BindOutcome::Failed));
                BindOutcome::Failed
            },
            AfterError::Retry => {
                let p = tasks_path(base, dir);
                write(p.as_str(), tid);
                let e2 = set(tid, cpus);
                let o = match e2 {
                    Ok(()) => BindOutcome::Bound,
                    Err(x) => after_retry_error(x),
                };
                assert(attempt(get, write, set, tid, *cpus, dir@, *topo, base@, cur, e1, e2, o));
                o
            },
        },
    }
}

} // verus!
