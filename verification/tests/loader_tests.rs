use rami::loader::{candidate_paths, resolve_first, split_search_path, Loader, LoaderError};

#[test]
fn split_keeps_order_and_empty_entries() {
    assert_eq!(split_search_path("a;;b"), vec!["a", "", "b"]);
    assert_eq!(split_search_path(""), vec![""]);
    assert_eq!(split_search_path("/opt/drivers"), vec!["/opt/drivers"]);
    assert_eq!(split_search_path(";"), vec!["", ""]);
}

#[test]
fn candidates_follow_listed_order() {
    let sp = Some("/opt/drivers;/usr/local/drivers".to_string());
    let cands = candidate_paths(&sp, "gpio");
    assert_eq!(
        cands,
        vec!["/opt/drivers/gpio.so", "/usr/local/drivers/gpio.so"]
    );
}

#[test]
fn unset_search_path_yields_no_candidates() {
    let cands = candidate_paths(&None, "gpio");
    assert!(cands.is_empty());
}

#[test]
fn resolve_returns_first_existing_candidate() {
    let sp = Some("/opt/drivers;/usr/local/drivers".to_string());
    let cands = candidate_paths(&sp, "gpio");
    let entries: Vec<(String, bool)> = vec![
        (cands[0].clone(), false),
        (cands[1].clone(), true),
    ];
    let path = resolve_first("gpio", &entries).unwrap();
    assert_eq!(path, "/usr/local/drivers/gpio.so");
}

#[test]
fn resolve_prefers_the_earlier_of_two_existing() {
    let entries: Vec<(String, bool)> = vec![
        ("/a/x.so".to_string(), true),
        ("/b/x.so".to_string(), true),
    ];
    assert_eq!(resolve_first("x", &entries).unwrap(), "/a/x.so");
}

#[test]
fn resolve_fails_when_nothing_exists() {
    let entries: Vec<(String, bool)> = vec![
        ("/a/x.so".to_string(), false),
        ("/b/x.so".to_string(), false),
    ];
    match resolve_first("x", &entries) {
        Err(LoaderError::LibraryNotFound { name }) => assert_eq!(name, "x"),
        _ => panic!("expected a not-found error"),
    }
}

#[test]
fn resolve_fails_on_empty_candidate_list() {
    match resolve_first("anything", &Vec::new()) {
        Err(LoaderError::LibraryNotFound { name }) => assert_eq!(name, "anything"),
        _ => panic!("expected a not-found error"),
    }
}

#[test]
fn loader_reports_not_found() {
    let entries: Vec<(String, bool)> = vec![("/nowhere/x.so".to_string(), false)];
    match Loader::new("x", &entries) {
        Err(LoaderError::LibraryNotFound { name }) => assert_eq!(name, "x"),
        _ => panic!("expected a not-found error"),
    }
}

#[test]
fn loader_propagates_load_failure() {
    // An existing file that is no shared object: the dynamic loader
    // rejects it, and the failure must come through as a load error.
    let entries: Vec<(String, bool)> = vec![("/proc/self/status".to_string(), true)];
    match Loader::new("status", &entries) {
        Err(LoaderError::LoadError { detail }) => assert!(!detail.is_empty()),
        Err(LoaderError::LibraryNotFound { .. }) => panic!("expected a load error"),
        Ok(_) => panic!("expected the loader to reject a non-library file"),
    }
}

#[test]
fn loader_owns_the_resolved_path_on_success() {
    let probes = [
        "/lib/x86_64-linux-gnu/libc.so.6",
        "/usr/lib/x86_64-linux-gnu/libc.so.6",
        "/lib64/libc.so.6",
        "/usr/lib64/libc.so.6",
        "/lib/libc.so.6",
    ];
    let entries: Vec<(String, bool)> = probes
        .iter()
        .map(|p| (p.to_string(), std::path::Path::new(p).exists()))
        .collect();
    let first_existing = entries.iter().find(|(_, e)| *e).map(|(p, _)| p.clone());
    match (Loader::new("libc", &entries), first_existing) {
        (Ok(loader), Some(expected)) => assert_eq!(loader.path(), &expected),
        (Err(LoaderError::LibraryNotFound { .. }), None) => {}
        _ => panic!("loading an existing libc must succeed and own its path"),
    }
}
