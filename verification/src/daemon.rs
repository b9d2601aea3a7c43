//! The daemon's own decisions: its command line, and when each periodic
//! task of its main loop is due.
use vstd::prelude::*;

use crate::text::{chars_of, parse_u64_at, parse_unsigned};

verus! {

/// The polling interval, in seconds, when none is given.
pub const DEFAULT_INTERVAL: u64 = 2;

/// Configuration changes are looked at no more often than this, in seconds.
pub const RELOAD_DEBOUNCE_SECS: u64 = 5;

/// Unconfigured apps are looked for at least once every this many rounds.
pub const UNKNOWN_SCAN_ROUNDS: i32 = 120;

/// The command line's settings.
pub struct Options {
    pub config_path: String,
    pub interval: u64,
}

/// The configuration file used when none is given.
pub open spec fn default_config() -> Seq<char> {
    "/sdcard/Android/Aether/threads.json"@
}

/// Whether `a` is the flag `-c` (for `c` the character `c`).
pub open spec fn is_flag(a: Seq<char>, c: char) -> bool {
    a.len() == 2 && a[0] == '-' && a[1] == c
}

/// The interval that the text `a` gives: its value as a `u64`, else the
/// default.
pub open spec fn interval_of(a: Seq<char>) -> nat {
    match parse_unsigned(a, u64::MAX as nat) {
        Some(n) => n,
        None => DEFAULT_INTERVAL as nat,
    }
}

/// The (configuration path, interval) after reading the arguments from
/// index `i` on, starting from `path` and `iv`: `-c` takes the next
/// argument as the path, `-s` the next as the interval; a flag with no
/// argument after it ends the reading; anything else is skipped.
pub open spec fn scan_args(args: Seq<Seq<char>>, i: int, path: Seq<char>, iv: nat) -> (Seq<char>, nat)
    decreases args.len() - i,
{
    if i < 0 || i >= args.len() {
        (path, iv)
    } else if is_flag(args[i], 'c') {
        if i + 1 < args.len() {
            scan_args(args, i + 2, args[i + 1], iv)
        } else {
            (path, iv)
        }
    } else if is_flag(args[i], 's') {
        if i + 1 < args.len() {
            scan_args(args, i + 2, path, interval_of(args[i + 1]))
        } else {
            (path, iv)
        }
    } else {
        scan_args(args, i + 1, path, iv)
    }
}

/// The settings that the command line `args` (the program's name first)
/// gives; an interval of 0 counts as 1.
pub open spec fn options_of(args: Seq<Seq<char>>) -> (Seq<char>, nat) {
    let (path, iv) = scan_args(args, 1, default_config(), DEFAULT_INTERVAL as nat);
    (path, if iv < 1 {
        1nat
    } else {
        iv
    })
}

/// The arguments as plain values.
pub open spec fn args_view(args: Seq<String>) -> Seq<Seq<char>> {
    args.map_values(|a: String| a@)
}

fn flag_is(a: &String, c: char) -> (r: bool)
    ensures
        r == is_flag(a@, c),
{
    let v = chars_of(a.as_str());
    v.len() == 2 && v[0] == '-' && v[1] == c
}

fn interval_from(a: &String) -> (r: u64)
    ensures
        r == interval_of(a@),
{
    let v = chars_of(a.as_str());
    proof {
        assert(v@.subrange(0, v@.len() as int) =~= v@);
    }
    match parse_u64_at(&v, 0, v.len()) {
        Some(n) => n,
        None => DEFAULT_INTERVAL,
    }
}

/// The settings of the command line `args`; see `options_of`.
pub fn parse_args(args: &Vec<String>) -> (r: Options)
    ensures
        (r.config_path@, r.interval as nat) == options_of(args_view(args@)),
{
    let ghost av = args_view(args@);
    let mut path = String::from_str("/sdcard/Android/Aether/threads.json");
    let mut interval: u64 = DEFAULT_INTERVAL;
    let mut i: usize = 1;
    proof {
        reveal_strlit("/sdcard/Android/Aether/threads.json");
    }
    while i < args.len()
        invariant
            av == args_view(args@),
            av.len() == args@.len(),
            1 <= i,
            scan_args(av, 1, default_config(), DEFAULT_INTERVAL as nat) == scan_args(
                av,
                i as int,
                path@,
                interval as nat,
            ),
        ensures
            scan_args(av, 1, default_config(), DEFAULT_INTERVAL as nat) == (path@, interval as nat),
        decreases args@.len() - i,
    {
        assert(av[i as int] == args@[i as int]@);
        if flag_is(&args[i], 'c') {
            if i + 1 < args.len() {
                assert(av[i + 1] == args@[i + 1]@);
                path = args[i + 1].clone();
                i = i + 2;
            } else {
                break;
            }
        } else if flag_is(&args[i], 's') {
            if i + 1 < args.len() {
                assert(av[i + 1] == args@[i + 1]@);
                interval = interval_from(&args[i + 1]);
                i = i + 2;
            } else {
                break;
            }
        } else {
            i = i + 1;
        }
    }
    if interval < 1 {
        interval = 1;
    }
    Options { config_path: path, interval }
}

/// Whether configuration changes are looked at again, `elapsed` whole
/// seconds after the last reload.
pub fn reload_window_open(elapsed: u64) -> (r: bool)
    ensures
        r == (elapsed >= RELOAD_DEBOUNCE_SECS),
{
    elapsed >= RELOAD_DEBOUNCE_SECS
}

/// Whether a binding pass is due: one is asked for, or `elapsed` whole
/// seconds have passed since the last, at least three intervals.
pub fn affinity_pass_due(force: bool, elapsed: u64, interval: u64) -> (r: bool)
    ensures
        r == (force || elapsed >= 3 * interval),
{
    proof {
        assert((elapsed / 3 >= interval) == (elapsed >= 3 * interval)) by (nonlinear_arith);
    }
    force || elapsed / 3 >= interval
}

/// Counts one more round since the last look for unconfigured apps, with
/// `procs_now` processes running (-1 when unknown) where `last_count` were
/// seen: a look is due after `UNKNOWN_SCAN_ROUNDS` rounds, or as soon as
/// the number of processes grew. Answers whether it is due, and the
/// count of rounds to carry on (0 after a look).
pub fn unknown_scan_step(rounds: i32, procs_now: i32, last_count: i32) -> (r: (bool, i32))
    ensures
        r.0 == (rounds + 1 >= UNKNOWN_SCAN_ROUNDS || procs_now > last_count),
        r.1 == (if r.0 {
            0
        } else {
            rounds + 1
        }),
{
    if rounds >= UNKNOWN_SCAN_ROUNDS - 1 || procs_now > last_count {
        (true, 0)
    } else {
        (false, rounds + 1)
    }
}

/// Whether the daemon pins itself to the little cores `little`: when they
/// are known (not empty, and not the `0` that stands for an unknown layout).
pub fn pins_self(little: &str) -> (r: bool)
    ensures
        r == (little@.len() > 0 && little@ != seq!['0']),
{
    let v = chars_of(little);
    if v.len() == 0 {
        return false;
    }
    if v.len() == 1 && v[0] == '0' {
        assert(v@ =~= seq!['0']);
        return false;
    }
    true
}

} // verus!
