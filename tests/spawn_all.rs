use nsspawn::advanced::{SpawnAll, SpawnError};
use nsspawn::basic::{collect_specific_namespaces, Namespaces, NsType, ProcLink};

fn registry() -> Namespaces {
    let procs = vec![
        ProcLink { pid: "10".to_string(), target: Some("net:[101]".to_string()) },
        ProcLink { pid: "1".to_string(), target: None },
        ProcLink { pid: "11".to_string(), target: Some("net:[102]".to_string()) },
        ProcLink { pid: "12".to_string(), target: Some("net:[103]".to_string()) },
    ];
    collect_specific_namespaces(NsType::NET, &procs)
}

/// Drives a run in which the targets whose key is in `closed` cannot be
/// opened; the result of each other target is its key's length.
fn drive(ns: &Namespaces, closed: &[&str]) -> (Vec<String>, Vec<usize>) {
    let mut run: SpawnAll<usize> = SpawnAll::new(ns).unwrap();
    assert_eq!(ns.key(run.origin()), "origin");
    while let Some(p) = run.next_target() {
        let key = ns.key(p).clone();
        assert_ne!(key, "origin");
        if closed.contains(&key.as_str()) {
            run.skip();
        } else {
            run.record(ns, key.len() * 100 + p);
        }
    }
    run.finish()
}

#[test]
fn run_visits_every_entry_but_origin() {
    let ns = registry();
    let (keys, values) = drive(&ns, &[]);
    assert_eq!(keys, vec!["101".to_string(), "102".to_string(), "103".to_string()]);
    assert_eq!(values, vec![300, 302, 303]);
}

#[test]
fn run_omits_entries_that_cannot_be_opened() {
    let ns = registry();
    let (keys, values) = drive(&ns, &["102"]);
    assert_eq!(keys, vec!["101".to_string(), "103".to_string()]);
    assert_eq!(values, vec![300, 303]);
    let (keys, _) = drive(&ns, &["101", "102", "103"]);
    assert!(keys.is_empty());
}

#[test]
fn repeated_runs_give_the_same_keys() {
    let ns = registry();
    let first = drive(&ns, &["103"]);
    let second = drive(&ns, &["103"]);
    assert_eq!(first.0, second.0);
}

#[test]
fn run_needs_an_origin_entry() {
    let procs = vec![ProcLink { pid: "10".to_string(), target: Some("net:[101]".to_string()) }];
    let ns = collect_specific_namespaces(NsType::NET, &procs);
    assert!(matches!(SpawnAll::<u8>::new(&ns), Err(SpawnError::NoOrigin)));
}

#[test]
fn run_over_origin_alone_gives_nothing() {
    let procs = vec![ProcLink { pid: "1".to_string(), target: None }];
    let ns = collect_specific_namespaces(NsType::NET, &procs);
    let (keys, values) = drive(&ns, &[]);
    assert!(keys.is_empty());
    assert!(values.is_empty());
}
