use aether_optext::cpu::{cluster_add, detect_layout, fmt_cpus, policy_cluster, topology, Cluster};
use aether_optext::cpulist::{last_list_number, parse_cpu_list};
use aether_optext::cpuset::{cpuset_dir_for, from_range, CpuSet, CpuTopology};

#[test]
fn parse_ranges_and_singles() {
    assert_eq!(parse_cpu_list("0-3,6"), vec![0, 1, 2, 3, 6]);
    assert_eq!(parse_cpu_list("4 5 7"), vec![4, 5, 7]);
    assert_eq!(parse_cpu_list(" 2 , 3 "), vec![2, 3]);
    assert_eq!(parse_cpu_list("+7"), vec![7]);
}

#[test]
fn parse_edge_cases() {
    assert_eq!(parse_cpu_list(""), Vec::<usize>::new());
    assert_eq!(parse_cpu_list("3-1"), Vec::<usize>::new());
    assert_eq!(parse_cpu_list("x-2"), vec![0, 1, 2]);
    assert_eq!(parse_cpu_list("5-y"), vec![5]);
    assert_eq!(parse_cpu_list("abc,,9"), vec![9]);
    assert_eq!(parse_cpu_list("-1"), vec![0, 1]);
}

#[test]
fn last_number_of_present_mask() {
    assert_eq!(last_list_number("0-7"), Some(7));
    assert_eq!(last_list_number("0-3,8-11"), Some(11));
    assert_eq!(last_list_number("0-7,x"), Some(7));
    assert_eq!(last_list_number(""), None);
    assert_eq!(last_list_number("a-b"), None);
}

#[test]
fn fmt_cpus_runs() {
    assert_eq!(fmt_cpus(&[0, 1, 2, 3, 5]), "0-3,5");
    assert_eq!(fmt_cpus(&[4]), "4");
    assert_eq!(fmt_cpus(&[]), "0");
    assert_eq!(fmt_cpus(&[7, 6, 10, 11, 12]), "7,6,10-12");
    assert_eq!(fmt_cpus(&[2, 3, 3]), "2-3,3");
}

#[test]
fn fmt_then_parse_gives_list_back() {
    let cpus = vec![0, 1, 2, 5, 7, 8, 100];
    let text = fmt_cpus(&cpus);
    assert_eq!(parse_cpu_list(&text), cpus);
}

#[test]
fn policy_cluster_reads_files() {
    let c = policy_cluster("0-3\n", "1804800\n").unwrap();
    assert_eq!(c.freq, 1804800);
    assert_eq!(c.cpus, vec![0, 1, 2, 3]);
    assert!(policy_cluster("0-3", "fast").is_none());
    assert!(policy_cluster("", "100").is_none());
}

#[test]
fn cluster_add_groups_by_frequency() {
    let mut cls: Vec<Cluster> = Vec::new();
    cluster_add(&mut cls, "100\n", 0);
    cluster_add(&mut cls, "200", 1);
    cluster_add(&mut cls, "100", 2);
    cluster_add(&mut cls, "bad", 3);
    assert_eq!(cls.len(), 2);
    assert_eq!(cls[0].freq, 100);
    assert_eq!(cls[0].cpus, vec![0, 2]);
    assert_eq!(cls[1].freq, 200);
    assert_eq!(cls[1].cpus, vec![1]);
}

fn cl(freq: u64, cpus: Vec<usize>) -> Cluster {
    Cluster { freq, cpus }
}

#[test]
fn topology_four_tiers() {
    let cls = vec![
        cl(1000, vec![0, 1, 2]),
        cl(3000, vec![7]),
        cl(2000, vec![3, 4]),
        cl(2500, vec![5, 6]),
    ];
    let (big, mid1, mid2, little, sizes) = topology(cls, "0-7");
    assert_eq!(big, "7");
    assert_eq!(mid1, "5-6");
    assert_eq!(mid2, "3-4");
    assert_eq!(little, "0-2");
    assert_eq!(sizes, "1+2+2+3");
}

#[test]
fn topology_three_tiers() {
    let cls = vec![cl(1000, vec![0, 1, 2, 3]), cl(3000, vec![7]), cl(2000, vec![4, 5, 6])];
    let (big, mid1, mid2, little, sizes) = topology(cls, "0-7");
    assert_eq!(big, "7");
    assert_eq!(mid1, "4-6");
    assert_eq!(mid2, "");
    assert_eq!(little, "0-3");
    assert_eq!(sizes, "1+3+4");
}

#[test]
fn topology_two_tiers() {
    let cls = vec![cl(1000, vec![0, 1, 2, 3]), cl(2000, vec![4, 5, 6, 7])];
    let (big, mid1, mid2, little, sizes) = topology(cls, "0-7");
    assert_eq!((big.as_str(), mid1.as_str(), mid2.as_str(), little.as_str()), ("4-7", "", "", "0-3"));
    assert_eq!(sizes, "4+4");
}

#[test]
fn topology_offline_big_cores() {
    let cls = vec![cl(1800, vec![0, 1, 2, 3])];
    let (big, mid1, mid2, little, sizes) = topology(cls, "0-7");
    assert_eq!(big, "4-7");
    assert_eq!(mid1, "");
    assert_eq!(mid2, "");
    assert_eq!(little, "0-3");
    assert_eq!(sizes, "4+4");
}

#[test]
fn topology_single_cluster_all_present() {
    let cls = vec![cl(1800, vec![0, 1, 2, 3])];
    let (big, _, _, little, sizes) = topology(cls, "0-3");
    assert_eq!(big, "0-3");
    assert_eq!(little, "0-3");
    assert_eq!(sizes, "4");
}

#[test]
fn topology_nothing_found() {
    let (big, mid1, mid2, little, sizes) = topology(Vec::new(), "");
    assert_eq!((big.as_str(), mid1.as_str(), mid2.as_str(), little.as_str(), sizes.as_str()), ("0", "", "", "0", "1"));
}

#[test]
fn topology_equal_frequencies_keep_order() {
    let cls = vec![cl(1000, vec![0]), cl(1000, vec![1]), cl(500, vec![2])];
    let (big, mid1, _, little, sizes) = topology(cls, "0-2");
    assert_eq!(big, "0");
    assert_eq!(mid1, "1");
    assert_eq!(little, "2");
    assert_eq!(sizes, "1+1+1");
}

#[test]
fn cpuset_from_range_and_back() {
    let s = from_range("0-3,6,2000");
    assert_eq!(s.count(), 5);
    assert!(s.has(6));
    assert!(!s.has(5));
    assert!(!s.has(2000));
    assert_eq!(s.to_range_string(), "0-3,6");
    let back = CpuSet::from_range(&s.to_range_string());
    assert!(back.same(&s));
    assert_eq!(back.bits, s.bits);
    assert_eq!(s.bits[0], 0b100_1111);
}

#[test]
fn cpuset_union_and_empty() {
    let mut a = CpuSet::new();
    assert_eq!(a.count(), 0);
    assert_eq!(a.to_range_string(), "");
    a.or(&from_range("1-2"));
    a.or(&from_range("2-3,64"));
    assert_eq!(a.to_range_string(), "1-3,64");
    assert_eq!(a.count(), 4);
    assert_eq!(a.bits[1], 1);
    a.set(1023);
    assert!(a.has(1023));
    assert_eq!(a.cpus(), vec![1, 2, 3, 64, 1023]);
}

#[test]
fn cpuset_group_names() {
    let topo_on = CpuTopology { present_cpus: from_range("0-7"), cpuset_enabled: true };
    let topo_off = CpuTopology { present_cpus: from_range("0-7"), cpuset_enabled: false };
    let s = from_range("4-7");
    assert_eq!(cpuset_dir_for(&s, &topo_on), "4-7");
    assert_eq!(cpuset_dir_for(&s, &topo_off), "");
}

fn s(x: &str) -> String {
    x.to_string()
}

#[test]
fn layout_from_policies_or_per_cpu() {
    let asked = std::cell::Cell::new(false);
    let per_cpu = || {
        asked.set(true);
        vec![cl(1000, vec![0, 1]), cl(2000, vec![2, 3])]
    };
    let r = detect_layout(vec![cl(1800, vec![0, 1, 2, 3]), cl(2800, vec![4, 5, 6, 7])], per_cpu, "0-7");
    assert!(!asked.get());
    assert_eq!(r, (s("4-7"), s(""), s(""), s("0-3"), s("4+4")));
    let r = detect_layout(vec![cl(1800, vec![0, 1, 2, 3])], per_cpu, "0-3");
    assert!(asked.get());
    assert_eq!(r, (s("2-3"), s(""), s(""), s("0-1"), s("2+2")));
}
