use aether_optext::config::{base_pkg_of, list_has, parse_name_list, AppConfig, CommRule, ConfigEntry, Rule};
use aether_optext::cpuset::{CpuSet, CpuTopology};
use aether_optext::fnmatch::fnmatch;
use aether_optext::rule_match::thread_affinity;

fn s(x: &str) -> String {
    x.to_string()
}

fn topo(enabled: bool) -> CpuTopology {
    CpuTopology { present_cpus: CpuSet::from_range("0-7"), cpuset_enabled: enabled }
}

fn rule(pkg: &str, thread: &str, cpus: &str) -> Rule {
    Rule { pkg: s(pkg), thread: s(thread), cpus: s(cpus), cpuset_dir: String::new() }
}

fn cfg_of(rules: Vec<Rule>, pkgs: Vec<&str>, wild: Vec<&str>, asoul: Vec<&str>) -> AppConfig {
    AppConfig {
        rules,
        pkg_set: pkgs.into_iter().map(s).collect(),
        wild: wild.into_iter().map(s).collect(),
        asoul_ignore: asoul.into_iter().map(s).collect(),
        topo: topo(false),
        ebpf: false,
        auto_for_none: false,
    }
}

/// The example entry of the configuration format.
fn genshin_entry() -> ConfigEntry {
    ConfigEntry {
        packages: vec![s("com.miHoYo.Yuanshen")],
        other: s("0-5"),
        comm: vec![
            CommRule { cpus: s("6-7"), threads: vec![s("UnityMain"), s("UnityGfxDeviceW")] },
            CommRule { cpus: s("0-5"), threads: vec![s("NativeThread")] },
        ],
    }
}

#[test]
fn fnmatch_literals_and_stars() {
    assert!(fnmatch("UnityMain", "UnityMain"));
    assert!(!fnmatch("UnityMain", "UnityMain2"));
    assert!(!fnmatch("UnityMain", "Unity"));
    assert!(fnmatch("Render*", "RenderThread"));
    assert!(fnmatch("Render*", "Render"));
    assert!(!fnmatch("Render*", "GLRender"));
    assert!(fnmatch("*", ""));
    assert!(fnmatch("*", "anything at all"));
    assert!(fnmatch("*Thread*", "MyThreadPool"));
    assert!(fnmatch("", ""));
    assert!(!fnmatch("", "a"));
}

#[test]
fn fnmatch_question_marks_and_classes() {
    assert!(fnmatch("Thread-???", "Thread-123"));
    assert!(!fnmatch("Thread-???", "Thread-12"));
    assert!(fnmatch("Thread-[0-9]", "Thread-7"));
    assert!(!fnmatch("Thread-[0-9]", "Thread-x"));
    assert!(fnmatch("Thread-[!0-9]", "Thread-x"));
    assert!(!fnmatch("Thread-[!0-9]", "Thread-3"));
    assert!(fnmatch("Thread-[^0-9]", "Thread-y"));
    assert!(fnmatch("[abc]x", "bx"));
    assert!(!fnmatch("[abc]x", "dx"));
    assert!(fnmatch("com.tencent.*", "com.tencent.tmgp.sgame"));
}

#[test]
fn build_collects_rules_and_names() {
    let entries = vec![
        genshin_entry(),
        ConfigEntry { packages: vec![s("com.tencent.*"), s("com.a.b")], other: s("0-3"), comm: vec![] },
    ];
    let cfg = AppConfig::build(&entries, vec![s("com.game.x")], topo(true), true, false);
    let got: Vec<(String, String, String)> =
        cfg.rules.iter().map(|r| (r.pkg.clone(), r.thread.clone(), r.cpus.clone())).collect();
    assert_eq!(
        got,
        vec![
            (s("com.miHoYo.Yuanshen"), s(""), s("0-5")),
            (s("com.miHoYo.Yuanshen"), s("UnityMain"), s("6-7")),
            (s("com.miHoYo.Yuanshen"), s("UnityGfxDeviceW"), s("6-7")),
            (s("com.miHoYo.Yuanshen"), s("NativeThread"), s("0-5")),
            (s("com.tencent.*"), s(""), s("0-3")),
            (s("com.a.b"), s(""), s("0-3")),
        ]
    );
    assert!(cfg.rules.iter().all(|r| r.cpuset_dir.is_empty()));
    assert_eq!(cfg.pkg_set, vec![s("com.miHoYo.Yuanshen"), s("com.a.b")]);
    assert_eq!(cfg.wild, vec![s("com.tencent.*")]);
    assert_eq!(cfg.asoul_ignore, vec![s("com.game.x")]);
    assert!(cfg.ebpf);
    assert!(!cfg.auto_for_none);
    assert!(cfg.topo.cpuset_enabled);
}

#[test]
fn build_without_other_has_only_thread_rules() {
    let entries = vec![ConfigEntry {
        packages: vec![s("com.x")],
        other: String::new(),
        comm: vec![CommRule { cpus: s("7"), threads: vec![s("Main")] }],
    }];
    let cfg = AppConfig::build(&entries, vec![], topo(false), false, true);
    assert_eq!(cfg.rules.len(), 1);
    assert_eq!(cfg.rules[0].thread, "Main");
    assert!(cfg.pkg_has_thread_rules("com.x"));
    assert!(!cfg.pkg_has_thread_rules("com.y"));
}

#[test]
fn interest_by_name_base_package_and_pattern() {
    let cfg = cfg_of(vec![], vec!["com.a.b"], vec!["com.tencent.*"], vec![]);
    assert!(cfg.pkg_interested("com.a.b"));
    assert!(cfg.pkg_interested("com.a.b:remote"));
    assert!(cfg.pkg_interested("com.tencent.mm"));
    assert!(!cfg.pkg_interested("com.a"));
    assert!(!cfg.pkg_interested("org.other"));
}

#[test]
fn exempt_by_name_and_base_package() {
    let cfg = cfg_of(vec![], vec![], vec![], vec!["com.game.x"]);
    assert!(cfg.pkg_exempt("com.game.x"));
    assert!(cfg.pkg_exempt("com.game.x:push"));
    assert!(!cfg.pkg_exempt("com.game.y"));
}

#[test]
fn base_package_and_list_lookup() {
    assert_eq!(base_pkg_of("com.a:remote"), "com.a");
    assert_eq!(base_pkg_of("com.a"), "com.a");
    assert_eq!(base_pkg_of(":x"), "");
    let v = vec![s("a"), s("b")];
    assert!(list_has(&v, "b"));
    assert!(!list_has(&v, "c"));
}

#[test]
fn comm_stands_for_package_by_head_or_tail() {
    let cfg = cfg_of(vec![], vec!["com.a", "com.miHoYo.Yuanshen"], vec![], vec![]);
    assert_eq!(cfg.comm_to_pkg("com.a"), Some(s("com.a")));
    assert_eq!(cfg.comm_to_pkg("com.miHoYo.Yuan"), Some(s("com.miHoYo.Yuanshen")));
    assert_eq!(cfg.comm_to_pkg("miHoYo.Yuanshen"), Some(s("com.miHoYo.Yuanshen")));
    assert_eq!(cfg.comm_to_pkg("com.miHoYo"), None);
    assert_eq!(cfg.comm_to_pkg(""), None);
}

#[test]
fn thread_rule_wins_over_fallback() {
    let cfg = AppConfig::build(&vec![genshin_entry()], vec![], topo(false), false, false);
    let r = thread_affinity("com.miHoYo.Yuanshen", "UnityMain", &cfg, &topo(false)).unwrap();
    assert_eq!(r.cpus.cpus(), vec![6, 7]);
    assert!(r.is_thread_rule);
    assert_eq!(r.cpuset_dir, "");
    let r = thread_affinity("com.miHoYo.Yuanshen", "UnityMain", &cfg, &topo(true)).unwrap();
    assert_eq!(r.cpuset_dir, "6-7");
}

#[test]
fn unmatched_thread_gets_fallback() {
    let cfg = AppConfig::build(&vec![genshin_entry()], vec![], topo(false), false, false);
    let r = thread_affinity("com.miHoYo.Yuanshen", "RenderThread", &cfg, &topo(true)).unwrap();
    assert_eq!(r.cpus.to_range_string(), "0-5");
    assert!(!r.is_thread_rule);
    assert_eq!(r.cpuset_dir, "0-5");
    let r = thread_affinity("com.miHoYo.Yuanshen", "", &cfg, &topo(false)).unwrap();
    assert_eq!(r.cpus.cpus(), vec![0, 1, 2, 3, 4, 5]);
    assert!(!r.is_thread_rule);
    assert_eq!(r.cpuset_dir, "");
}

#[test]
fn matching_thread_rules_accumulate() {
    let cfg = cfg_of(
        vec![rule("p", "Unity*", "4-5"), rule("p", "UnityMain", "6-7"), rule("q", "UnityMain", "0")],
        vec!["p"],
        vec![],
        vec![],
    );
    let r = thread_affinity("p", "UnityMain", &cfg, &topo(true)).unwrap();
    assert_eq!(r.cpus.cpus(), vec![4, 5, 6, 7]);
    assert_eq!(r.cpuset_dir, "4-7");
    assert!(r.is_thread_rule);
}

#[test]
fn several_fallbacks_union_without_group() {
    let mut second = rule("p", "", "6");
    second.cpuset_dir = s("top-app");
    let mut first = rule("p", "", "0-1");
    first.cpuset_dir = s("background");
    let cfg = cfg_of(vec![first, second], vec!["p"], vec![], vec![]);
    let r = thread_affinity("p", "x", &cfg, &topo(true)).unwrap();
    assert_eq!(r.cpus.cpus(), vec![0, 1, 6]);
    assert_eq!(r.cpuset_dir, "");
    let cfg1 = cfg_of(vec![rule("p", "", "2")], vec!["p"], vec![], vec![]);
    let mut named = cfg1;
    named.rules[0].cpuset_dir = s("games");
    let r = thread_affinity("p", "x", &named, &topo(true)).unwrap();
    assert_eq!(r.cpuset_dir, "games");
}

#[test]
fn thread_rules_only_and_no_match_give_none() {
    let cfg = cfg_of(vec![rule("p", "Main", "7")], vec!["p"], vec![], vec![]);
    assert!(thread_affinity("p", "Other", &cfg, &topo(true)).is_none());
    assert!(thread_affinity("p", "", &cfg, &topo(true)).is_none());
    assert_eq!(thread_affinity("p", "Main", &cfg, &topo(true)).unwrap().cpus.cpus(), vec![7]);
}

#[test]
fn no_rule_and_exempt_give_none() {
    let cfg = cfg_of(vec![rule("p", "", "0-3")], vec!["p"], vec![], vec!["p"]);
    assert!(thread_affinity("p", "x", &cfg, &topo(false)).is_none());
    assert!(thread_affinity("other", "x", &cfg, &topo(false)).is_none());
    let empty_cpus = cfg_of(vec![rule("p", "", "junk")], vec!["p"], vec![], vec![]);
    assert!(thread_affinity("p", "x", &empty_cpus, &topo(false)).is_none());
}

#[test]
fn game_list_lines() {
    assert_eq!(parse_name_list("com.a\n  com.b  \r\n\n\t\ncom.c"), vec![s("com.a"), s("com.b"), s("com.c")]);
    assert_eq!(parse_name_list(""), Vec::<String>::new());
    assert_eq!(parse_name_list("\n\n"), Vec::<String>::new());
    assert_eq!(parse_name_list("x\n"), vec![s("x")]);
}
