use scup::model::RepositoryId;
use scup::scan::{
    add_host, advertised, dest_name, host_id, instance_name, local_name, repos_property,
    roots_property, select_repo, sort_addrs, HostAddr, ScannedHost, ScannedRepo, UNKNOWN_ROOT,
};

fn repo(n: u8, root: &str) -> ScannedRepo {
    ScannedRepo { repo_uuid: RepositoryId([n; 32]), root: root.to_string() }
}

fn host(fullname: &str, repos: &str) -> ScannedHost {
    ScannedHost::from_resolved(fullname, &vec![], 6767, Some(repos), None)
}

#[test]
fn repositories_are_read_from_properties() {
    let ids = format!(" {} ,nonsense,,{}", "01".repeat(32), "02".repeat(32));
    let found = ScannedRepo::from_properties(Some(&ids), Some(" first ,,"));
    assert_eq!(found, vec![repo(1, "first"), repo(2, UNKNOWN_ROOT)]);
    assert_eq!(ScannedRepo::from_properties(None, Some("x")), vec![]);
    assert_eq!(ScannedRepo::from_properties(Some(""), None), vec![]);
}

#[test]
fn what_is_made_known_is_what_is_found() {
    let uuids = vec![RepositoryId([1; 32]), RepositoryId([2; 32])];
    let roots = vec!["a b".to_string(), "c".to_string()];
    let repos = repos_property(&uuids);
    assert_eq!(repos, format!("{},{}", "01".repeat(32), "02".repeat(32)));
    assert_eq!(roots_property(&roots), "a b,c");
    let found = ScannedRepo::from_properties(Some(&repos), Some(&roots_property(&roots)));
    assert_eq!(found, vec![repo(1, "a b"), repo(2, "c")]);
}

#[test]
fn what_a_server_makes_known() {
    let id = RepositoryId([1; 32]);
    assert_eq!(advertised(None, Some("x".to_string())), (vec![], vec![]));
    assert_eq!(advertised(Some(id), Some("x".to_string())), (vec![id], vec!["x".to_string()]));
    assert_eq!(advertised(Some(id), None), (vec![id], vec!["<unknown>".to_string()]));
}

#[test]
fn names_of_hosts() {
    assert_eq!(instance_name("box"), "scup-box");
    assert_eq!(local_name("box"), "box.local.");
    assert_eq!(host_id("scup-box._scup._tcp.local."), "box");
    assert_eq!(host_id("scup-scup-test._scup._tcp.local."), "scup-test");
    assert_eq!(host_id("other._scup._tcp.local."), "other");
    assert_eq!(host_id("scup-box"), "box");
    assert_eq!(host_id("scup._scup._tcp.local."), "scup");
    let h = host("scup-box._scup._tcp.local.", "");
    assert!(h.goes_by("box") && h.goes_by("scup-box._scup._tcp.local.") && !h.goes_by("scup-box"));
}

#[test]
fn addresses_are_put_in_order() {
    let v4 = |bits| HostAddr { v6: false, bits };
    let v6 = |bits| HostAddr { v6: true, bits };
    assert_eq!(
        sort_addrs(&vec![v6(0), v4(9), v6(u128::MAX), v4(2), v4(9)]),
        vec![v4(2), v4(9), v4(9), v6(0), v6(u128::MAX)]
    );
    assert_eq!(sort_addrs(&vec![]), vec![]);
}

#[test]
fn a_host_is_taken_once() {
    let mut hosts = Vec::new();
    assert!(add_host(&mut hosts, host("a", "")));
    assert!(add_host(&mut hosts, host("b", "")));
    assert!(!add_host(&mut hosts, host("a", &"01".repeat(32))));
    assert_eq!(hosts.len(), 2);
    assert!(hosts[0].repos.is_empty());
}

#[test]
fn a_host_offers_what_it_lists() {
    let h = host("a", &"01".repeat(32));
    assert!(h.offers(RepositoryId([1; 32])));
    assert!(!h.offers(RepositoryId([2; 32])));
    assert_eq!(h.port, 6767);
    assert!(h.is_shown(Some(RepositoryId([1; 32])), true));
    assert!(!h.is_shown(Some(RepositoryId([2; 32])), true));
    assert!(h.is_shown(Some(RepositoryId([2; 32])), false));
    assert!(h.is_shown(None, true));
}

#[test]
fn repositories_are_selected_by_root_or_by_id() {
    let repos = vec![repo(0xab, "x"), repo(0xac, "ab"), repo(0xad, "y")];
    assert_eq!(select_repo(&repos, "y"), Some(2));
    // A directory of this name comes before an id that begins so.
    assert_eq!(select_repo(&repos, "ab"), Some(1));
    assert_eq!(select_repo(&repos, "ABAB"), Some(0));
    assert_eq!(select_repo(&repos, &"AD".repeat(32)), Some(2));
    assert_eq!(select_repo(&repos, ""), Some(0));
    assert_eq!(select_repo(&repos, "zz"), None);
    assert_eq!(select_repo(&vec![], "x"), None);
}

#[test]
fn directories_of_clones() {
    assert_eq!(dest_name(&repo(0xab, "x")), "x");
    assert_eq!(dest_name(&repo(0xab, "")), "repo-abababab");
    assert_eq!(dest_name(&repo(0xab, "<unknown>")), "repo-abababab");
}
