use nsspawn::basic::{
    collect_namespaces, collect_specific_namespaces, is_process_dir, namespace_id_of, ns_path,
    FdStep, Namespace, Namespaces, NsLink, NsType, ProcLink,
};

fn link(name: &str, pid: &str, target: &str) -> NsLink {
    NsLink {
        name: name.to_string(),
        path: format!("/proc/{}/ns/{}", pid, name),
        target: target.to_string(),
    }
}

fn paths(n: &Namespace) -> Vec<String> {
    (0..n.candidate_count()).map(|i| n.candidate(i).clone()).collect()
}

fn lookup<'a>(ns: &'a Namespaces, key: &str) -> Option<&'a Namespace> {
    ns.get(&key.to_string())
}

#[test]
fn kind_names_round_trip() {
    let kinds = [
        NsType::CGROUP,
        NsType::PID,
        NsType::USER,
        NsType::UTS,
        NsType::IPC,
        NsType::MNT,
        NsType::NET,
        NsType::UNK,
    ];
    for k in kinds {
        assert_eq!(NsType::from_name(&k.name()), k);
    }
    assert_eq!(NsType::MNT.name(), "mnt");
    assert_eq!(NsType::UNK.name(), "unk");
    assert_eq!(NsType::from_name(&"time".to_string()), NsType::UNK);
}

#[test]
fn new_namespace_has_one_candidate() {
    let n = Namespace::new("net".to_string(), "/proc/7/ns/net".to_string());
    assert_eq!(n.kind(), NsType::NET);
    assert_eq!(paths(&n), vec!["/proc/7/ns/net".to_string()]);
    let u = Namespace::new("bogus".to_string(), "/x".to_string());
    assert_eq!(u.kind(), NsType::UNK);
}

#[test]
fn identity_is_first_run_of_digits_not_starting_with_zero() {
    assert_eq!(
        namespace_id_of(&"mnt:[4026531841]".to_string()),
        Some("4026531841".to_string())
    );
    assert_eq!(
        namespace_id_of(&"net:[0042]".to_string()),
        Some("42".to_string())
    );
    assert_eq!(namespace_id_of(&"pid:[]".to_string()), None);
    assert_eq!(namespace_id_of(&"000".to_string()), None);
}

#[test]
fn same_link_read_twice_gives_same_key() {
    let t = "uts:[4026531838]".to_string();
    assert_eq!(namespace_id_of(&t), namespace_id_of(&t.clone()));
}

#[test]
fn processes_sharing_a_namespace_collapse() {
    let links = vec![
        link("mnt", "1", "mnt:[4026531841]"),
        link("net", "1", "net:[4026531840]"),
        link("mnt", "42", "mnt:[4026531841]"),
        link("net", "42", "net:[4026532000]"),
        link("mnt", "43", "broken"),
    ];
    let ns = collect_namespaces(&links);
    assert_eq!(ns.len(), 3);
    let mnt = lookup(&ns, "4026531841").unwrap();
    assert_eq!(mnt.kind(), NsType::MNT);
    assert_eq!(
        paths(mnt),
        vec!["/proc/1/ns/mnt".to_string(), "/proc/42/ns/mnt".to_string()]
    );
    let net = lookup(&ns, "4026532000").unwrap();
    assert_eq!(net.kind(), NsType::NET);
    assert_eq!(paths(net), vec!["/proc/42/ns/net".to_string()]);
    assert!(lookup(&ns, "origin").is_none());
    assert_eq!(ns.key(0), "4026531841");
    assert_eq!(ns.key(1), "4026531840");
    assert_eq!(ns.key(2), "4026532000");
}

#[test]
fn empty_scan_gives_empty_registry() {
    assert_eq!(collect_namespaces(&Vec::new()).len(), 0);
    assert_eq!(collect_specific_namespaces(NsType::PID, &Vec::new()).len(), 0);
}

#[test]
fn specific_scan_keys_process_one_as_origin() {
    let procs = vec![
        ProcLink { pid: "1".to_string(), target: None },
        ProcLink { pid: "5".to_string(), target: Some("mnt:[4026531841]".to_string()) },
        ProcLink { pid: "6".to_string(), target: Some("mnt:[4026532222]".to_string()) },
        ProcLink { pid: "7".to_string(), target: Some("mnt:[4026532222]".to_string()) },
        ProcLink { pid: "8".to_string(), target: None },
    ];
    let ns = collect_specific_namespaces(NsType::MNT, &procs);
    assert_eq!(ns.len(), 3);
    let origin = lookup(&ns, "origin").unwrap();
    assert_eq!(origin.kind(), NsType::MNT);
    assert_eq!(paths(origin), vec!["/proc/1/ns/mnt".to_string()]);
    assert_eq!(
        paths(lookup(&ns, "4026532222").unwrap()),
        vec!["/proc/6/ns/mnt".to_string(), "/proc/7/ns/mnt".to_string()]
    );
    assert_eq!(paths(lookup(&ns, "4026531841").unwrap()), vec!["/proc/5/ns/mnt".to_string()]);
}

#[test]
fn specific_scan_has_origin_for_every_kind() {
    for k in [NsType::CGROUP, NsType::PID, NsType::USER, NsType::UTS, NsType::IPC, NsType::NET] {
        let procs = vec![ProcLink { pid: "1".to_string(), target: Some("x:[9]".to_string()) }];
        let ns = collect_specific_namespaces(k, &procs);
        assert_eq!(lookup(&ns, "origin").unwrap().kind(), k);
        assert!(lookup(&ns, "9").is_none());
    }
}

#[test]
fn namespace_path_of_a_process() {
    assert_eq!(ns_path(NsType::IPC, &"314".to_string()), "/proc/314/ns/ipc");
}

#[test]
fn process_directories_are_numeric() {
    assert!(is_process_dir(&"1".to_string()));
    assert!(is_process_dir(&"4242".to_string()));
    assert!(is_process_dir(&"18446744073709551615".to_string()));
    assert!(!is_process_dir(&"18446744073709551616".to_string()));
    assert!(!is_process_dir(&"self".to_string()));
    assert!(!is_process_dir(&"12a".to_string()));
    assert!(!is_process_dir(&"".to_string()));
}

#[test]
fn descriptor_search_tries_candidates_in_order() {
    let n = collect_namespaces(&vec![
        link("mnt", "1", "mnt:[11]"),
        link("mnt", "2", "mnt:[11]"),
        link("mnt", "3", "mnt:[11]"),
    ]);
    let h = n.handle(0);
    assert_eq!(h.first_fd_step(), FdStep::Open(0));
    assert_eq!(h.next_fd_step(0, None), FdStep::Open(1));
    assert_eq!(h.next_fd_step(1, Some(9)), FdStep::Found(9));
    assert_eq!(h.next_fd_step(1, None), FdStep::Open(2));
    assert_eq!(h.next_fd_step(2, None), FdStep::Unavailable);
}

#[test]
fn new_registry_is_empty() {
    let n = Namespaces::new();
    assert_eq!(n.len(), 0);
    assert!(n.get(&"origin".to_string()).is_none());
}

#[test]
fn descriptor_search_with_all_paths_missing_is_unavailable() {
    let h = Namespace::new("pid".to_string(), "/nonexistent/ns/pid".to_string());
    let mut step = h.first_fd_step();
    let mut opened = 0;
    while let FdStep::Open(i) = step {
        opened += 1;
        step = h.next_fd_step(i, None);
    }
    assert_eq!(step, FdStep::Unavailable);
    assert_eq!(opened, 1);
}
