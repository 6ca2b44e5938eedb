use repo_reconcile::dependency::Dependency;
use repo_reconcile::reconcile::{find_missing, probe_url, sort_paths};
use repo_reconcile::scan::{is_dependency_file, scan_paths};

fn dep(group: &str, artifact: &str, version: &str) -> Dependency {
    Dependency {
        group: String::from(group),
        artifact: String::from(artifact),
        version: String::from(version),
        classifier: None,
        dep_type: String::from("jar"),
    }
}

#[test]
fn missing_set_is_exactly_the_absent_coordinates() {
    let deps = vec![dep("g", "a", "1"), dep("g", "b", "2"), dep("g", "c", "3")];
    let present = vec![true, false, false];
    let missing = find_missing(deps, &present);
    assert_eq!(missing.len(), 2);
    assert_eq!(missing[0], dep("g", "b", "2"));
    assert_eq!(missing[1], dep("g", "c", "3"));
}

#[test]
fn missing_set_empty_when_all_present() {
    let deps = vec![dep("g", "a", "1"), dep("g", "b", "2")];
    let present = vec![true, true];
    assert_eq!(find_missing(deps, &present).len(), 0);
}

#[test]
fn missing_set_everything_when_none_present() {
    let deps = vec![dep("g", "a", "1"), dep("g", "b", "2")];
    let present = vec![false, false];
    let missing = find_missing(deps, &present);
    assert_eq!(missing.len(), 2);
    assert_eq!(missing[0], dep("g", "a", "1"));
    assert_eq!(missing[1], dep("g", "b", "2"));
}

#[test]
fn archive_paths_are_sorted() {
    let paths = vec![String::from("b/1"), String::from("a/1"), String::from("c/1")];
    let sorted = sort_paths(paths);
    assert_eq!(sorted, vec![String::from("a/1"), String::from("b/1"), String::from("c/1")]);
}

#[test]
fn sort_keeps_duplicates_and_empty_input() {
    let sorted = sort_paths(vec![]);
    assert_eq!(sorted.len(), 0);

    let paths = vec![String::from("x"), String::from("x"), String::from("a")];
    let sorted = sort_paths(paths);
    assert_eq!(sorted, vec![String::from("a"), String::from("x"), String::from("x")]);
}

#[test]
fn probe_url_concatenates_remote_and_path() {
    let d = Dependency {
        group: String::from("org.foo"),
        artifact: String::from("bar"),
        version: String::from("1.0"),
        classifier: Some(String::from("sources")),
        dep_type: String::from("jar"),
    };
    assert_eq!(
        probe_url("https://repo.example.com/maven2", &d),
        "https://repo.example.com/maven2/org/foo/bar/1.0/bar-1.0-sources.jar"
    );
}

#[test]
fn dependency_file_suffixes() {
    assert!(is_dependency_file("classmate-1.3.4.jar"));
    assert!(is_dependency_file("classmate-1.3.4.pom"));
    assert!(!is_dependency_file("classmate-1.3.4.jar.sha1"));
    assert!(!is_dependency_file("classmate-1.3.4.md5"));
    assert!(!is_dependency_file(""));
}

#[test]
fn scan_collects_candidates_in_order() {
    let paths = vec![
        String::from("/repo/org/foo/bar/1.0/bar-1.0.jar"),
        String::from("/repo/org/foo/bar/1.0/bar-1.0.jar.sha1"),
        String::from("/repo/org/foo/bar/1.0/bar-1.0.pom"),
        String::from("/repo/org/foo/baz/2.0-SNAPSHOT/baz-2.0-SNAPSHOT.jar"),
        String::from("/repo/antlr/antlr/2.7.7/antlr-2.7.7.pom"),
    ];
    let deps = scan_paths(&paths, "/repo", &vec![]);
    assert_eq!(deps.len(), 3);
    assert_eq!(deps[0].artifact, "bar");
    assert_eq!(deps[0].dep_type, "jar");
    assert_eq!(deps[1].artifact, "bar");
    assert_eq!(deps[1].dep_type, "pom");
    assert_eq!(deps[2].group, "antlr");
}

#[test]
fn scan_applies_group_exclusion() {
    let paths = vec![
        String::from("/repo/org/foo/bar/1.0/bar-1.0.jar"),
        String::from("/repo/antlr/antlr/2.7.7/antlr-2.7.7.pom"),
    ];
    let deps = scan_paths(&paths, "/repo", &vec!["antlr"]);
    assert_eq!(deps.len(), 1);
    assert_eq!(deps[0].group, "org.foo");
}
