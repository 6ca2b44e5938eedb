use repo_reconcile::dependency::{Dependency, DisplayFormat};

#[test]
fn to_display_options() {
    let dep_unclassified = Dependency {
        group: String::from("org.something.else"),
        artifact: String::from("frog-pond"),
        version: String::from("1.3.4"),
        classifier: None,
        dep_type: String::from("jar"),
    };

    let dep_classified = Dependency {
        group: String::from("org.something.else"),
        artifact: String::from("frog-pond"),
        version: String::from("1.3.4"),
        classifier: Some(String::from("shaded")),
        dep_type: String::from("jar"),
    };

    assert_eq!(
        "org.something.else:frog-pond:1.3.4::jar",
        dep_unclassified.to_display(&DisplayFormat::Short)
    );
    assert_eq!(
        "org.something.else:frog-pond:1.3.4:shaded:jar",
        dep_classified.to_display(&DisplayFormat::Short)
    );

    assert_eq!(
        "group:org.something.else, artifact:frog-pond, version:1.3.4, type:jar",
        dep_unclassified.to_display(&DisplayFormat::Long)
    );
    assert_eq!(
        "group:org.something.else, artifact:frog-pond, version:1.3.4, classifier:shaded, type:jar",
        dep_classified.to_display(&DisplayFormat::Long)
    );

    assert_eq!(
        "org/something/else/frog-pond/1.3.4/frog-pond-1.3.4.jar",
        dep_unclassified.to_display(&DisplayFormat::Path)
    );
    assert_eq!(
        "org/something/else/frog-pond/1.3.4/frog-pond-1.3.4-shaded.jar",
        dep_classified.to_display(&DisplayFormat::Path)
    );
}

#[test]
fn to_path_without_classifier() {
    let dep = Dependency {
        group: String::from("org.something.else"),
        artifact: String::from("frog-pond"),
        version: String::from("1.3.4"),
        classifier: None,
        dep_type: String::from("jar"),
    };

    assert_eq!(dep.to_url_path(), "org/something/else/frog-pond/1.3.4/frog-pond-1.3.4.jar");
}

#[test]
fn to_path_with_classifier() {
    let dep = Dependency {
        group: String::from("org.something.else"),
        artifact: String::from("frog-pond"),
        version: String::from("1.3.4"),
        classifier: Some(String::from("docs")),
        dep_type: String::from("jar"),
    };

    assert_eq!(dep.to_url_path(), "org/something/else/frog-pond/1.3.4/frog-pond-1.3.4-docs.jar");
}

#[test]
fn parse_dep_with_classifier() {
    let dep = Dependency::parse(
        "/foo/bar/org/something/else/frog-pond/1.3.4/frog-pond-1.3.4-sources.jar",
        "/foo/bar",
        &vec![],
    )
    .unwrap();
    assert_eq!(
        dep,
        Dependency {
            group: String::from("org.something.else"),
            artifact: String::from("frog-pond"),
            version: String::from("1.3.4"),
            classifier: Some(String::from("sources")),
            dep_type: String::from("jar"),
        }
    );
}

#[test]
fn parse_dep_without_classifier_no_leading_slash() {
    let dep = Dependency::parse(
        "/foo/bar/com/fasterxml/classmate/1.3.4/classmate-1.3.4.jar",
        "/foo/bar",
        &vec![],
    )
    .unwrap();
    assert_eq!(
        dep,
        Dependency {
            group: String::from("com.fasterxml"),
            artifact: String::from("classmate"),
            version: String::from("1.3.4"),
            classifier: None,
            dep_type: String::from("jar"),
        }
    );
}

#[test]
fn parse_dep_without_classifier_with_leading_slash() {
    let dep = Dependency::parse(
        "/foo/bar/com/fasterxml/classmate/1.3.4/classmate-1.3.4.jar",
        "/foo/bar/",
        &vec![],
    )
    .unwrap();
    assert_eq!(
        dep,
        Dependency {
            group: String::from("com.fasterxml"),
            artifact: String::from("classmate"),
            version: String::from("1.3.4"),
            classifier: None,
            dep_type: String::from("jar"),
        }
    );
}

#[test]
fn parse_dep_short_group() {
    let dep =
        Dependency::parse("/bing/bong/antlr/antlr/2.7.7/antlr-2.7.7.pom", "/bing/bong", &vec![])
            .unwrap();
    assert_eq!(
        dep,
        Dependency {
            group: String::from("antlr"),
            artifact: String::from("antlr"),
            version: String::from("2.7.7"),
            classifier: None,
            dep_type: String::from("pom"),
        }
    );
}

#[test]
fn parse_ignores_snapshot_versions() {
    let dep = Dependency::parse(
        "/bing/bong/antlr/antlr/2.7.7-SNAPSHOT/antlr-2.7.7-20190315.103529-213.pom",
        "/bing/bong",
        &vec![],
    );
    assert_eq!(None, dep);
}

#[test]
fn parse_ignored_group() {
    let dep = Dependency::parse(
        "/bing/bong/antlr/antlr/2.7.7/antlr-2.7.7.pom",
        "/bing/bong",
        &vec!["antlr"],
    );
    assert_eq!(None, dep);

    let dep = Dependency::parse(
        "/foo/bar/com/fasterxml/classmate/1.3.4/classmate-1.3.4.jar",
        "/foo/bar/",
        &vec!["com.fasterxml"],
    );
    assert_eq!(None, dep);
}

#[test]
fn parse_retains_group_containing_excluded_substring() {
    let dep = Dependency::parse(
        "/foo/bar/com/fasterxml/classmate/1.3.4/classmate-1.3.4.jar",
        "/foo/bar",
        &vec!["fasterxml", "com", "com.fasterxml.classmate"],
    );
    assert!(dep.is_some());
    assert_eq!(dep.unwrap().group, "com.fasterxml");
}

#[test]
fn parse_concrete_scenario() {
    let dep = Dependency::parse("/repo/org/foo/bar/1.0/bar-1.0-sources.jar", "/repo", &vec![])
        .unwrap();
    assert_eq!(
        dep,
        Dependency {
            group: String::from("org.foo"),
            artifact: String::from("bar"),
            version: String::from("1.0"),
            classifier: Some(String::from("sources")),
            dep_type: String::from("jar"),
        }
    );
    assert_eq!(dep.to_url_path(), "org/foo/bar/1.0/bar-1.0-sources.jar");
}

#[test]
fn parse_round_trip() {
    let dep = Dependency {
        group: String::from("org.foo"),
        artifact: String::from("bar"),
        version: String::from("1.0"),
        classifier: Some(String::from("sources")),
        dep_type: String::from("jar"),
    };
    let reparsed = Dependency::parse(&dep.to_url_path(), "", &vec![]).unwrap();
    assert_eq!(dep, reparsed);

    let dep = Dependency {
        group: String::from("antlr"),
        artifact: String::from("antlr"),
        version: String::from("2.7.7"),
        classifier: None,
        dep_type: String::from("pom"),
    };
    let reparsed = Dependency::parse(&dep.to_url_path(), "", &vec![]).unwrap();
    assert_eq!(dep, reparsed);
}

#[test]
fn parse_classifier_detection() {
    let absent =
        Dependency::parse("g/a/1.2/a-1.2.jar", "", &vec![]).unwrap();
    assert_eq!(absent.classifier, None);

    let present = Dependency::parse("g/a/1.2/a-1.2-X.jar", "", &vec![]).unwrap();
    assert_eq!(present.classifier, Some(String::from("X")));
}

#[test]
fn parse_normalizes_backslashes() {
    let dep = Dependency::parse(
        "C:\\repo\\com\\fasterxml\\classmate\\1.3.4\\classmate-1.3.4.jar",
        "C:\\repo",
        &vec![],
    )
    .unwrap();
    assert_eq!(dep.group, "com.fasterxml");
    assert_eq!(dep.to_url_path(), "com/fasterxml/classmate/1.3.4/classmate-1.3.4.jar");
}

#[test]
fn parse_rejects_malformed_paths() {
    // Too few segments to derive a group.
    assert_eq!(None, Dependency::parse("a/1.0/a-1.0.jar", "", &vec![]));
    // File name that does not begin with artifact-version.
    assert_eq!(None, Dependency::parse("g/a/1.0/other-2.0.jar", "", &vec![]));
    // No type after the prefix.
    assert_eq!(None, Dependency::parse("g/a/1.0/a-1.0", "", &vec![]));
}

#[test]
fn parse_multi_dot_type_without_classifier() {
    let dep = Dependency::parse("g/a/1.0/a-1.0.tar.gz", "", &vec![]).unwrap();
    assert_eq!(dep.classifier, None);
    assert_eq!(dep.dep_type, "tar.gz");
}

#[test]
fn parse_empty_classifier_is_absent() {
    let dep = Dependency::parse("g/a/1.0/a-1.0-.jar", "", &vec![]).unwrap();
    assert_eq!(dep.classifier, None);
    assert_eq!(dep.dep_type, "jar");
}

#[test]
fn display_format_labels() {
    assert!(matches!(DisplayFormat::from("short"), DisplayFormat::Short));
    assert!(matches!(DisplayFormat::from("SHORT"), DisplayFormat::Short));
    assert!(matches!(DisplayFormat::from("Path"), DisplayFormat::Path));
    assert!(matches!(DisplayFormat::from("long"), DisplayFormat::Long));
    assert!(matches!(DisplayFormat::from("LONG"), DisplayFormat::Long));
    assert!(matches!(DisplayFormat::from("whatever"), DisplayFormat::Long));
    assert!(matches!(DisplayFormat::from(""), DisplayFormat::Long));
}
