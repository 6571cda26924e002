use fpkgi::server::{
    content_range, decide_request, dir_listing, parse_config, plan_range, resolve_request,
    root_index, sort_names, Action, PathKind, RangePlan, Resolution, ServerConfig,
};
use fpkgi::url::encode_path;
use fpkgi::watch::{next_action, EventKind, WatchAction, WatchEvent};

fn config() -> ServerConfig {
    ServerConfig::new(vec![("pkgs".to_string(), "/var/pkg".to_string())])
}

#[test]
fn range_prefix_of_file() {
    let n = 1000u64;
    assert_eq!(plan_range(Some("bytes=0-4"), n), RangePlan::Partial(0, 4));
    assert_eq!(content_range(0, 4, n), "bytes 0-4/1000");
}

#[test]
fn range_open_ended_runs_to_end() {
    let n = 10u64;
    assert_eq!(plan_range(Some("bytes=5-"), n), RangePlan::Partial(5, 9));
    assert_eq!(content_range(5, 9, n), "bytes 5-9/10");
}

#[test]
fn range_out_of_bounds_serves_whole_file() {
    let n = 10u64;
    assert_eq!(plan_range(Some("bytes=10-10"), n), RangePlan::Full);
    assert_eq!(plan_range(Some("bytes=5-3"), n), RangePlan::Full);
    assert_eq!(plan_range(Some("bytes=0-"), 0), RangePlan::Full);
}

#[test]
fn range_malformed_serves_whole_file() {
    for h in ["", "bytes=", "bytes=-5", "bytes=a-b", "items=0-4", "bytes=0-4,6-7", "bytes=99999999999999999999-1"] {
        assert_eq!(plan_range(Some(h), 100), RangePlan::Full, "header {:?}", h);
    }
    assert_eq!(plan_range(None, 100), RangePlan::Full);
}

#[test]
fn range_hundred_bytes_of_package() {
    assert_eq!(plan_range(Some("bytes=100-199"), 5000), RangePlan::Partial(100, 199));
}

#[test]
fn root_path_is_index() {
    assert!(matches!(resolve_request(&config(), "/"), Resolution::Index));
    assert!(matches!(decide_request(Resolution::Index, PathKind::Missing), Action::ShowIndex));
}

#[test]
fn mapped_directory_without_slash_redirects() {
    let r = resolve_request(&config(), "/pkgs");
    match &r {
        Resolution::Mapped { fs_path, request_path, trailing_slash } => {
            assert_eq!(fs_path, "/var/pkg");
            assert_eq!(request_path, "/pkgs");
            assert!(!trailing_slash);
        }
        other => panic!("unexpected {:?}", other),
    }
    match decide_request(r, PathKind::Directory) {
        Action::Redirect { location } => assert_eq!(location, "/pkgs/"),
        other => panic!("unexpected {:?}", other),
    }
}

#[test]
fn mapped_directory_with_slash_lists() {
    let r = resolve_request(&config(), "/pkgs/");
    match decide_request(r, PathKind::Directory) {
        Action::ShowListing { fs_path, request_path } => {
            assert_eq!(fs_path, "/var/pkg");
            assert_eq!(request_path, "/pkgs/");
        }
        other => panic!("unexpected {:?}", other),
    }
}

#[test]
fn file_in_mapped_directory_is_served() {
    let r = resolve_request(&config(), "/pkgs/sub/my%20game.pkg");
    match decide_request(r, PathKind::File) {
        Action::ServeFile { fs_path } => assert_eq!(fs_path, "/var/pkg/sub/my game.pkg"),
        other => panic!("unexpected {:?}", other),
    }
}

#[test]
fn unknown_or_missing_paths_are_not_found() {
    assert!(matches!(resolve_request(&config(), "/other/x"), Resolution::NotFound));
    assert!(matches!(resolve_request(&config(), "/pkgs/../etc/passwd"), Resolution::NotFound));
    assert!(matches!(resolve_request(&config(), "/pkgs/%2E%2E/etc"), Resolution::NotFound));
    let r = resolve_request(&config(), "/pkgs/gone.pkg");
    assert!(matches!(decide_request(r, PathKind::Missing), Action::NotFound));
    assert!(matches!(resolve_request(&config(), "/pkgs/a..b.pkg"), Resolution::Mapped { .. }));
}

#[test]
fn listing_sorts_case_insensitively_and_keeps_names() {
    let page = dir_listing("/pkgs/", vec!["b.pkg".to_string(), "My Game.pkg".to_string(), "A.pkg".to_string()]);
    let a = page.find("A.pkg").unwrap();
    let b = page.find("b.pkg").unwrap();
    let m = page.find("My Game.pkg").unwrap();
    assert!(a < b && b < m);
    assert!(page.contains("<li><a href=\"/pkgs/My Game.pkg\">My Game.pkg</a></li>"));
    assert!(page.starts_with("<!DOCTYPE html>"));
}

#[test]
fn index_lists_directories_sorted() {
    let cfg = ServerConfig::new(vec![
        ("zeta".to_string(), "/z".to_string()),
        ("Alpha".to_string(), "/a".to_string()),
        ("beta".to_string(), "/b".to_string()),
    ]);
    let page = root_index(&cfg);
    let a = page.find("/Alpha/").unwrap();
    let b = page.find("/beta/").unwrap();
    let z = page.find("/zeta/").unwrap();
    assert!(a < b && b < z);
    assert!(page.contains("<li><a href=\"/beta/\">/beta</a></li>"));
}

#[test]
fn sort_is_stable_for_equal_keys() {
    let sorted = sort_names(vec!["b".to_string(), "B".to_string(), "a".to_string()]);
    assert_eq!(sorted, vec!["a".to_string(), "b".to_string(), "B".to_string()]);
}

#[test]
fn config_parsing() {
    let ok = parse_config(&vec![("pkgs:/var/pkg".to_string(), PathKind::Directory), ("missing".to_string(), PathKind::Missing)]).unwrap();
    assert_eq!(ok.path_of("pkgs"), Some("/var/pkg".to_string()));
    assert_eq!(ok.path_of("missing"), Some("missing".to_string()));
    let err = parse_config(&vec![("f:/etc/hosts".to_string(), PathKind::File)]).unwrap_err();
    assert_eq!(err, "'/etc/hosts' is not a directory");
    assert_eq!(parse_config(&Vec::new()).unwrap_err(), "No valid directories specified");
    let dup = ServerConfig::new(vec![("a".to_string(), "/1".to_string()), ("a".to_string(), "/2".to_string())]);
    assert_eq!(dup.directories.len(), 1);
    assert_eq!(dup.path_of("a"), Some("/2".to_string()));
}

#[test]
fn percent_encoding_round_trip() {
    assert_eq!(encode_path("my game.pkg"), "my%20game.pkg");
    assert_eq!(encode_path("tab\there"), "tab%09here");
    assert_eq!(encode_path("é"), "%C3%A9");
    let encoded = encode_path("sub/my game é.pkg");
    match resolve_request(&config(), &format!("/pkgs/{}", encoded)) {
        Resolution::Mapped { fs_path, .. } => assert_eq!(fs_path, "/var/pkg/sub/my game é.pkg"),
        other => panic!("unexpected {:?}", other),
    }
    match resolve_request(&config(), "/pkgs/a%2fb%zz") {
        Resolution::Mapped { fs_path, .. } => assert_eq!(fs_path, "/var/pkg/a/b%zz"),
        other => panic!("unexpected {:?}", other),
    }
}

#[test]
fn watcher_rebuilds_on_tree_changes_only() {
    for k in [EventKind::Create, EventKind::Modify, EventKind::Remove] {
        assert_eq!(next_action(WatchEvent::Changed(k), true), WatchAction::Regenerate);
        assert_eq!(next_action(WatchEvent::Changed(k), false), WatchAction::Report);
    }
    for k in [EventKind::Access, EventKind::Other] {
        assert_eq!(next_action(WatchEvent::Changed(k), true), WatchAction::Ignore);
    }
    assert_eq!(next_action(WatchEvent::Failed, true), WatchAction::ReportError);
    assert_eq!(next_action(WatchEvent::Closed, true), WatchAction::Stop);
}
