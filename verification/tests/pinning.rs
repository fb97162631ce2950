use pandoraslogs::pinning::{choose_pinned_cores, drain_order, CpuTopoEntry};

fn entry(core: usize, package: u32, physical: u32) -> CpuTopoEntry {
    CpuTopoEntry { core, package_id: Some(package), core_id: Some(physical) }
}

#[test]
fn no_workers_or_no_cores() {
    assert!(choose_pinned_cores(0, &vec![entry(0, 0, 0)]).is_empty());
    assert!(choose_pinned_cores(4, &Vec::new()).is_empty());
}

#[test]
fn physical_cores_come_before_siblings() {
    // one package, two physical cores with two logical cores each
    let topo = vec![entry(0, 0, 0), entry(1, 0, 1), entry(2, 0, 0), entry(3, 0, 1)];
    assert_eq!(choose_pinned_cores(1, &topo), vec![0]);
    assert_eq!(choose_pinned_cores(2, &topo), vec![0, 1]);
    assert_eq!(choose_pinned_cores(3, &topo), vec![0, 1, 2]);
    assert_eq!(choose_pinned_cores(4, &topo), vec![0, 1, 2, 3]);
    assert_eq!(choose_pinned_cores(9, &topo), vec![0, 1, 2, 3]);
}

#[test]
fn larger_packages_are_drained_first() {
    let topo = vec![
        entry(0, 0, 0),
        entry(1, 1, 0),
        entry(2, 1, 1),
        entry(3, 1, 2),
        entry(4, 0, 1),
        entry(5, 2, 0),
    ];
    assert_eq!(drain_order(&topo), vec![1, 2, 3, 0, 4, 5]);
    assert_eq!(choose_pinned_cores(4, &topo), vec![1, 2, 3, 0]);
    assert_eq!(choose_pinned_cores(6, &topo), vec![1, 2, 3, 0, 4, 5]);
}

#[test]
fn packages_of_one_size_keep_their_order() {
    let topo = vec![entry(7, 3, 0), entry(8, 1, 0), entry(9, 3, 1), entry(10, 1, 1)];
    assert_eq!(drain_order(&topo), vec![0, 2, 1, 3]);
    assert_eq!(choose_pinned_cores(3, &topo), vec![7, 9, 8]);
}

#[test]
fn unknown_topology_counts_as_one_core() {
    let unknown = |core| CpuTopoEntry { core, package_id: None, core_id: None };
    let topo = vec![unknown(0), unknown(1), unknown(2)];
    // all three share the unknown physical core: one in the first pass, the
    // others in the second
    assert_eq!(choose_pinned_cores(2, &topo), vec![0, 1]);
    assert_eq!(choose_pinned_cores(5, &topo), vec![0, 1, 2]);
}

#[test]
fn a_core_is_not_taken_twice_in_the_second_pass() {
    let topo = vec![entry(0, 0, 0), entry(0, 0, 0), entry(1, 0, 0)];
    assert_eq!(choose_pinned_cores(3, &topo), vec![0, 1]);
}
