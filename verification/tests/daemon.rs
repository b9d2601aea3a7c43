use aether_optext::daemon::{affinity_pass_due, parse_args, pins_self, reload_window_open, unknown_scan_step};

fn args(v: &[&str]) -> Vec<String> {
    v.iter().map(|a| a.to_string()).collect()
}

#[test]
fn default_options() {
    let o = parse_args(&args(&["aether"]));
    assert_eq!(o.config_path, "/sdcard/Android/Aether/threads.json");
    assert_eq!(o.interval, 2);
    let o = parse_args(&args(&[]));
    assert_eq!(o.interval, 2);
}

#[test]
fn config_and_interval_flags() {
    let o = parse_args(&args(&["aether", "-c", "/data/t.json", "-s", "5"]));
    assert_eq!(o.config_path, "/data/t.json");
    assert_eq!(o.interval, 5);
    let o = parse_args(&args(&["aether", "-x", "-s", "7", "-c", "a", "-c", "b"]));
    assert_eq!(o.config_path, "b");
    assert_eq!(o.interval, 7);
}

#[test]
fn bad_or_missing_values() {
    assert_eq!(parse_args(&args(&["aether", "-s", "abc"])).interval, 2);
    assert_eq!(parse_args(&args(&["aether", "-s", "0"])).interval, 1);
    assert_eq!(parse_args(&args(&["aether", "-s", "+9"])).interval, 9);
    let o = parse_args(&args(&["aether", "-s"]));
    assert_eq!(o.interval, 2);
    let o = parse_args(&args(&["aether", "-c"]));
    assert_eq!(o.config_path, "/sdcard/Android/Aether/threads.json");
    // The value after a flag is taken whatever it looks like.
    let o = parse_args(&args(&["aether", "-c", "-s", "3"]));
    assert_eq!(o.config_path, "-s");
    assert_eq!(o.interval, 2);
}

#[test]
fn loop_schedule() {
    assert!(!reload_window_open(4));
    assert!(reload_window_open(5));
    assert!(affinity_pass_due(true, 0, 2));
    assert!(!affinity_pass_due(false, 5, 2));
    assert!(affinity_pass_due(false, 6, 2));
    assert!(!affinity_pass_due(false, u64::MAX, u64::MAX));
    assert_eq!(unknown_scan_step(0, 10, 10), (false, 1));
    assert_eq!(unknown_scan_step(118, 10, 10), (false, 119));
    assert_eq!(unknown_scan_step(119, 10, 10), (true, 0));
    assert_eq!(unknown_scan_step(3, 11, 10), (true, 0));
    assert_eq!(unknown_scan_step(3, -1, 10), (false, 4));
}

#[test]
fn self_pinning() {
    assert!(pins_self("0-3"));
    assert!(!pins_self("0"));
    assert!(!pins_self(""));
    assert!(pins_self("00"));
}
