use dep_catalog::collect::collect_dependencies;
use dep_catalog::collect::locate;
use dep_catalog::dependency::Dependency;
use dep_catalog::dependency::DependencyKind;
use dep_catalog::dependency::KindTable;
use dep_catalog::document::KindAnnotation;
use dep_catalog::document::MetadataDocument;
use dep_catalog::document::PackageRecord;
use dep_catalog::document::ResolutionEdge;
use dep_catalog::epoch::Epoch;
use dep_catalog::error::CollectError;
use dep_catalog::graph::clone_kinds;
use dep_catalog::graph::edges_of_nodes;
use dep_catalog::graph::features_for;
use dep_catalog::graph::Requirement;
use dep_catalog::graph::ResolutionNode;

fn strings(names: &[&str]) -> Vec<String> {
    names.iter().map(|s| s.to_string()).collect()
}

fn package(name: &str, version: &str, features: &[&str]) -> PackageRecord {
    PackageRecord {
        id: format!("{} {}", name, version),
        name: name.to_string(),
        version: version.to_string(),
        features: strings(features),
    }
}

fn edge(source: &str, target: &str, kinds: &[DependencyKind], features: &[&str]) -> ResolutionEdge {
    ResolutionEdge {
        source: source.to_string(),
        target: target.to_string(),
        kinds: kinds.iter().map(|k| KindAnnotation { kind: *k, platform: None }).collect(),
        features: strings(features),
    }
}

fn features_of(dependency: &Dependency, kind: DependencyKind) -> Vec<String> {
    dependency.dependency_kinds.get(&kind).unwrap().features.clone()
}

const NORMAL: DependencyKind = DependencyKind::Normal;
const BUILD: DependencyKind = DependencyKind::Build;
const DEVELOPMENT: DependencyKind = DependencyKind::Development;

fn sample_document() -> MetadataDocument {
    let packages = vec![
        package("cc", "1.0.73", &["jobserver", "parallel"]),
        package("more-asserts", "0.3.0", &[]),
        package("once_cell", "1.13.0", &["alloc", "default", "race", "std", "unstable"]),
        package("proc-macro2", "1.0.40", &["default", "nightly", "proc-macro", "span-locations"]),
        package("quote", "1.0.20", &["default", "proc-macro"]),
        package("sample_package", "0.1.0", &[]),
        package("serde", "1.0.139", &["alloc", "default", "derive", "rc", "serde_derive", "std"]),
        package("serde_derive", "1.0.139", &["default", "deserialize_in_place"]),
        package("syn", "1.0.98", &["clone-impls", "default", "derive", "full", "parsing", "printing"]),
        package("termcolor", "1.1.3", &[]),
        package("unicode-ident", "1.0.1", &[]),
    ];
    let syn_features =
        ["default", "derive", "parsing", "printing", "clone-impls", "proc-macro", "quote"];
    let edges = vec![
        edge("proc-macro2 1.0.40", "unicode-ident 1.0.1", &[NORMAL], &[]),
        edge("quote 1.0.20", "proc-macro2 1.0.40", &[NORMAL], &["proc-macro", "default"]),
        edge("sample_package 0.1.0", "cc 1.0.73", &[BUILD], &[]),
        edge("sample_package 0.1.0", "more-asserts 0.3.0", &[DEVELOPMENT], &[]),
        edge("sample_package 0.1.0", "once_cell 1.13.0", &[NORMAL], &["std", "race", "default", "alloc"]),
        edge(
            "sample_package 0.1.0",
            "serde 1.0.139",
            &[NORMAL],
            &["std", "serde_derive", "derive", "default"],
        ),
        edge("sample_package 0.1.0", "termcolor 1.1.3", &[NORMAL], &[]),
        edge("serde 1.0.139", "serde_derive 1.0.139", &[NORMAL], &["default"]),
        edge("serde_derive 1.0.139", "proc-macro2 1.0.40", &[NORMAL], &["default", "proc-macro"]),
        edge("serde_derive 1.0.139", "quote 1.0.20", &[NORMAL], &["default", "proc-macro"]),
        edge("serde_derive 1.0.139", "syn 1.0.98", &[NORMAL], &syn_features),
        edge("syn 1.0.98", "proc-macro2 1.0.40", &[NORMAL], &["default", "proc-macro"]),
        edge("syn 1.0.98", "quote 1.0.20", &[NORMAL], &["default", "proc-macro"]),
        edge("syn 1.0.98", "unicode-ident 1.0.1", &[NORMAL], &[]),
    ];
    MetadataDocument { packages, edges }
}

#[test]
fn collect_dependencies_on_sample_output() {
    let mut dependencies = collect_dependencies(&sample_document()).unwrap();
    dependencies.sort_by(|left, right| {
        left.package_name.cmp(&right.package_name).then(left.epoch.cmp(&right.epoch))
    });

    let empty_str_slice: &'static [&'static str] = &[];

    assert_eq!(dependencies.len(), 10);

    assert_eq!(dependencies[0].package_name, "cc");
    assert_eq!(dependencies[0].epoch, Epoch::Major(1));
    assert_eq!(
        dependencies[0].dependency_kinds.get(&DependencyKind::Build).unwrap().features,
        empty_str_slice
    );

    assert_eq!(dependencies[1].package_name, "more-asserts");
    assert_eq!(dependencies[1].epoch, Epoch::Minor(3));
    assert_eq!(
        dependencies[1].dependency_kinds.get(&DependencyKind::Development).unwrap().features,
        empty_str_slice
    );

    assert_eq!(dependencies[2].package_name, "once_cell");
    assert_eq!(dependencies[2].epoch, Epoch::Major(1));
    assert_eq!(
        dependencies[2].dependency_kinds.get(&DependencyKind::Normal).unwrap().features,
        &["alloc", "default", "race", "std"]
    );

    assert_eq!(dependencies[3].package_name, "proc-macro2");
    assert_eq!(dependencies[3].epoch, Epoch::Major(1));
    assert_eq!(
        dependencies[3].dependency_kinds.get(&DependencyKind::Normal).unwrap().features,
        &["default", "proc-macro"]
    );

    assert_eq!(dependencies[4].package_name, "quote");
    assert_eq!(dependencies[4].epoch, Epoch::Major(1));
    assert_eq!(
        dependencies[4].dependency_kinds.get(&DependencyKind::Normal).unwrap().features,
        &["default", "proc-macro"]
    );

    assert_eq!(dependencies[5].package_name, "serde");
    assert_eq!(dependencies[5].epoch, Epoch::Major(1));
    assert_eq!(
        dependencies[5].dependency_kinds.get(&DependencyKind::Normal).unwrap().features,
        &["default", "derive", "serde_derive", "std"]
    );

    assert_eq!(dependencies[6].package_name, "serde_derive");
    assert_eq!(dependencies[6].epoch, Epoch::Major(1));
    assert_eq!(
        dependencies[6].dependency_kinds.get(&DependencyKind::Normal).unwrap().features,
        &["default"]
    );

    assert_eq!(dependencies[7].package_name, "syn");
    assert_eq!(dependencies[7].epoch, Epoch::Major(1));
    assert_eq!(
        dependencies[7].dependency_kinds.get(&DependencyKind::Normal).unwrap().features,
        &["clone-impls", "default", "derive", "parsing", "printing", "proc-macro", "quote"]
    );

    assert_eq!(dependencies[8].package_name, "termcolor");
    assert_eq!(dependencies[8].epoch, Epoch::Major(1));
    assert_eq!(
        dependencies[8].dependency_kinds.get(&DependencyKind::Normal).unwrap().features,
        empty_str_slice
    );

    assert_eq!(dependencies[9].package_name, "unicode-ident");
    assert_eq!(dependencies[9].epoch, Epoch::Major(1));
    assert_eq!(
        dependencies[9].dependency_kinds.get(&DependencyKind::Normal).unwrap().features,
        empty_str_slice
    );
}

#[test]
fn catalog_comes_out_sorted_by_name_then_epoch() {
    let catalog = collect_dependencies(&sample_document()).unwrap();
    let mut sorted = catalog.clone();
    sorted.sort_by(|left, right| {
        left.package_name.cmp(&right.package_name).then(left.epoch.cmp(&right.epoch))
    });
    assert_eq!(catalog, sorted);
    let names: Vec<&str> = catalog.iter().map(|d| d.package_name.as_str()).collect();
    assert_eq!(
        names,
        [
            "cc",
            "more-asserts",
            "once_cell",
            "proc-macro2",
            "quote",
            "serde",
            "serde_derive",
            "syn",
            "termcolor",
            "unicode-ident"
        ]
    );
}

#[test]
fn entries_carry_version_and_declared_features() {
    let catalog = collect_dependencies(&sample_document()).unwrap();
    assert_eq!(catalog[0].version, "1.0.73");
    assert_eq!(catalog[0].features, strings(&["jobserver", "parallel"]));
    assert_eq!(catalog[2].version, "1.13.0");
    assert_eq!(catalog[2].features, strings(&["alloc", "default", "race", "std", "unstable"]));
}

#[test]
fn root_package_is_not_in_the_catalog() {
    let catalog = collect_dependencies(&sample_document()).unwrap();
    assert!(catalog.iter().all(|d| d.package_name != "sample_package"));
}

#[test]
fn empty_graph_gives_empty_catalog() {
    let empty = MetadataDocument { packages: Vec::new(), edges: Vec::new() };
    assert_eq!(collect_dependencies(&empty), Ok(Vec::new()));
    let no_edges = MetadataDocument {
        packages: vec![package("a", "1.0.0", &[]), package("b", "not a version", &[])],
        edges: Vec::new(),
    };
    assert_eq!(collect_dependencies(&no_edges), Ok(Vec::new()));
}

#[test]
fn collecting_twice_gives_the_same_catalog() {
    let document = sample_document();
    let first = collect_dependencies(&document).unwrap();
    let second = collect_dependencies(&document).unwrap();
    assert_eq!(first, second);
    for (left, right) in first.iter().zip(second.iter()) {
        for kind in [NORMAL, BUILD, DEVELOPMENT] {
            assert_eq!(left.dependency_kinds.get(&kind), right.dependency_kinds.get(&kind));
        }
    }
}

#[test]
fn catalog_does_not_depend_on_edge_order() {
    let document = sample_document();
    let mut reversed = document.clone();
    reversed.edges.reverse();
    assert_eq!(collect_dependencies(&document), collect_dependencies(&reversed));
}

#[test]
fn features_of_two_edges_are_united() {
    let document = MetadataDocument {
        packages: vec![package("p", "1.4.0", &["a", "b", "c", "d"]), package("r", "0.1.0", &[]), package("s", "0.2.0", &[])],
        edges: vec![
            edge("r 0.1.0", "p 1.4.0", &[NORMAL], &["a", "b"]),
            edge("s 0.2.0", "p 1.4.0", &[NORMAL], &["b", "c"]),
        ],
    };
    let catalog = collect_dependencies(&document).unwrap();
    assert_eq!(catalog.len(), 1);
    assert_eq!(catalog[0].package_name, "p");
    assert_eq!(features_of(&catalog[0], NORMAL), strings(&["a", "b", "c"]));
}

#[test]
fn features_are_united_per_kind() {
    let document = MetadataDocument {
        packages: vec![package("p", "1.4.0", &[])],
        edges: vec![
            edge("r", "p 1.4.0", &[NORMAL], &["n2", "n1"]),
            edge("s", "p 1.4.0", &[BUILD], &["b1"]),
            edge("t", "p 1.4.0", &[NORMAL, DEVELOPMENT], &["x"]),
        ],
    };
    let catalog = collect_dependencies(&document).unwrap();
    assert_eq!(catalog.len(), 1);
    assert_eq!(features_of(&catalog[0], NORMAL), strings(&["n1", "n2", "x"]));
    assert_eq!(features_of(&catalog[0], BUILD), strings(&["b1"]));
    assert_eq!(features_of(&catalog[0], DEVELOPMENT), strings(&["x"]));
}

#[test]
fn development_only_package_has_no_other_kind() {
    let document = MetadataDocument {
        packages: vec![package("more-asserts", "0.3.0", &[])],
        edges: vec![
            edge("a", "more-asserts 0.3.0", &[DEVELOPMENT], &["x"]),
            edge("b", "more-asserts 0.3.0", &[DEVELOPMENT], &[]),
        ],
    };
    let catalog = collect_dependencies(&document).unwrap();
    assert_eq!(catalog.len(), 1);
    let kinds = &catalog[0].dependency_kinds;
    assert!(kinds.get(&NORMAL).is_none());
    assert!(kinds.get(&BUILD).is_none());
    assert!(!kinds.contains_key(&NORMAL));
    assert!(!kinds.contains_key(&BUILD));
    assert!(kinds.contains_key(&DEVELOPMENT));
    assert_eq!(features_of(&catalog[0], DEVELOPMENT), strings(&["x"]));
}

#[test]
fn edge_without_kinds_gives_an_entry_without_kinds() {
    let document = MetadataDocument {
        packages: vec![package("p", "2.0.0", &[])],
        edges: vec![edge("r", "p 2.0.0", &[], &["x"])],
    };
    let catalog = collect_dependencies(&document).unwrap();
    assert_eq!(catalog.len(), 1);
    assert_eq!(catalog[0].dependency_kinds, KindTable::new());
    for kind in [NORMAL, BUILD, DEVELOPMENT] {
        assert!(catalog[0].dependency_kinds.get(&kind).is_none());
    }
}

#[test]
fn platform_of_an_annotation_changes_nothing() {
    let mut first = edge("r", "p 2.0.0", &[NORMAL], &["x"]);
    first.kinds[0].platform = Some("cfg(windows)".to_string());
    first.kinds.push(KindAnnotation { kind: NORMAL, platform: Some("cfg(unix)".to_string()) });
    let document =
        MetadataDocument { packages: vec![package("p", "2.0.0", &[])], edges: vec![first] };
    let plain = MetadataDocument {
        packages: vec![package("p", "2.0.0", &[])],
        edges: vec![edge("r", "p 2.0.0", &[NORMAL], &["x"])],
    };
    assert_eq!(collect_dependencies(&document), collect_dependencies(&plain));
}

#[test]
fn diamond_collapses_to_one_entry() {
    let document = MetadataDocument {
        packages: vec![
            package("left", "0.1.0", &[]),
            package("right", "0.1.0", &[]),
            package("shared", "1.2.3", &[]),
        ],
        edges: vec![
            edge("root", "left 0.1.0", &[NORMAL], &[]),
            edge("root", "right 0.1.0", &[NORMAL], &[]),
            edge("left 0.1.0", "shared 1.2.3", &[NORMAL], &["l"]),
            edge("right 0.1.0", "shared 1.2.3", &[NORMAL], &["r"]),
        ],
    };
    let catalog = collect_dependencies(&document).unwrap();
    let shared: Vec<&Dependency> =
        catalog.iter().filter(|d| d.package_name == "shared").collect();
    assert_eq!(shared.len(), 1);
    assert_eq!(shared[0].epoch, Epoch::Major(1));
    assert_eq!(features_of(shared[0], NORMAL), strings(&["l", "r"]));
    assert_eq!(catalog.len(), 3);
}

#[test]
fn same_version_under_two_identifiers_is_one_entry() {
    let mut registry = package("shared", "1.2.3", &["from-registry"]);
    registry.id = "registry+shared".to_string();
    let mut git = package("shared", "1.2.3", &["from-git"]);
    git.id = "git+shared".to_string();
    let document = MetadataDocument {
        packages: vec![registry, git],
        edges: vec![
            edge("a", "git+shared", &[NORMAL], &["x"]),
            edge("b", "registry+shared", &[BUILD], &["y"]),
        ],
    };
    let catalog = collect_dependencies(&document).unwrap();
    assert_eq!(catalog.len(), 1);
    assert_eq!(catalog[0].features, strings(&["from-git"]));
    assert_eq!(features_of(&catalog[0], NORMAL), strings(&["x"]));
    assert_eq!(features_of(&catalog[0], BUILD), strings(&["y"]));
}

#[test]
fn different_epochs_of_one_package_coexist() {
    let document = MetadataDocument {
        packages: vec![
            package("syn", "1.0.98", &[]),
            package("syn", "2.0.15", &[]),
            package("rand", "0.7.3", &[]),
            package("rand", "0.8.5", &[]),
        ],
        edges: vec![
            edge("a", "syn 2.0.15", &[NORMAL], &["full"]),
            edge("b", "syn 1.0.98", &[NORMAL], &["derive"]),
            edge("c", "rand 0.8.5", &[NORMAL], &[]),
            edge("d", "rand 0.7.3", &[DEVELOPMENT], &[]),
        ],
    };
    let catalog = collect_dependencies(&document).unwrap();
    let keys: Vec<(&str, Epoch)> =
        catalog.iter().map(|d| (d.package_name.as_str(), d.epoch.clone())).collect();
    assert_eq!(
        keys,
        [
            ("rand", Epoch::Minor(7)),
            ("rand", Epoch::Minor(8)),
            ("syn", Epoch::Major(1)),
            ("syn", Epoch::Major(2)),
        ]
    );
    assert_eq!(features_of(&catalog[2], NORMAL), strings(&["derive"]));
    assert_eq!(features_of(&catalog[3], NORMAL), strings(&["full"]));
}

#[test]
fn zero_zero_versions_get_separate_entries() {
    let document = MetadataDocument {
        packages: vec![package("tiny", "0.0.2", &[]), package("tiny", "0.0.1", &[])],
        edges: vec![
            edge("a", "tiny 0.0.2", &[NORMAL], &["x"]),
            edge("b", "tiny 0.0.1", &[NORMAL], &["y"]),
            edge("c", "tiny 0.0.2", &[NORMAL], &["z"]),
        ],
    };
    let catalog = collect_dependencies(&document).unwrap();
    assert_eq!(catalog.len(), 2);
    assert_eq!(catalog[0].epoch, Epoch::Exact("0.0.1".to_string()));
    assert_eq!(catalog[1].epoch, Epoch::Exact("0.0.2".to_string()));
    assert_eq!(features_of(&catalog[0], NORMAL), strings(&["y"]));
    assert_eq!(features_of(&catalog[1], NORMAL), strings(&["x", "z"]));
}

#[test]
fn proc_macro2_required_normally() {
    let document = MetadataDocument {
        packages: vec![package("proc-macro2", "1.0.40", &["default", "proc-macro"])],
        edges: vec![edge("quote 1.0.20", "proc-macro2 1.0.40", &[NORMAL], &["proc-macro", "default"])],
    };
    let catalog = collect_dependencies(&document).unwrap();
    assert_eq!(catalog.len(), 1);
    assert_eq!(catalog[0].package_name, "proc-macro2");
    assert_eq!(catalog[0].epoch, Epoch::Major(1));
    assert_eq!(features_of(&catalog[0], NORMAL), strings(&["default", "proc-macro"]));
}

#[test]
fn cc_required_only_at_build_time() {
    let document = MetadataDocument {
        packages: vec![package("cc", "1.0.73", &["parallel"])],
        edges: vec![edge("sample_package 0.1.0", "cc 1.0.73", &[BUILD], &[])],
    };
    let catalog = collect_dependencies(&document).unwrap();
    assert_eq!(catalog.len(), 1);
    assert_eq!(catalog[0].package_name, "cc");
    assert_eq!(features_of(&catalog[0], BUILD), Vec::<String>::new());
    assert!(catalog[0].dependency_kinds.get(&NORMAL).is_none());
    assert!(catalog[0].dependency_kinds.get(&DEVELOPMENT).is_none());
}

#[test]
fn conflicting_versions_are_refused() {
    let document = MetadataDocument {
        packages: vec![package("foo", "1.0.1", &[]), package("foo", "1.0.2", &[])],
        edges: vec![
            edge("a", "foo 1.0.1", &[NORMAL], &[]),
            edge("b", "foo 1.0.2", &[NORMAL], &[]),
        ],
    };
    assert_eq!(
        collect_dependencies(&document),
        Err(CollectError::ConflictingVersions {
            package_name: "foo".to_string(),
            first: "1.0.1".to_string(),
            second: "1.0.2".to_string(),
        })
    );
}

#[test]
fn conflicting_minor_versions_are_refused() {
    let document = MetadataDocument {
        packages: vec![package("foo", "0.4.1", &[]), package("foo", "0.4.0", &[]), package("bar", "1.0.0", &[])],
        edges: vec![
            edge("a", "bar 1.0.0", &[NORMAL], &[]),
            edge("a", "foo 0.4.0", &[BUILD], &[]),
            edge("b", "foo 0.4.0", &[NORMAL], &[]),
            edge("b", "foo 0.4.1", &[DEVELOPMENT], &[]),
        ],
    };
    assert_eq!(
        collect_dependencies(&document),
        Err(CollectError::ConflictingVersions {
            package_name: "foo".to_string(),
            first: "0.4.0".to_string(),
            second: "0.4.1".to_string(),
        })
    );
}

#[test]
fn build_metadata_alone_is_a_conflict() {
    let mut plain = package("foo", "1.0.0", &[]);
    plain.id = "plain".to_string();
    let mut tagged = package("foo", "1.0.0+tag", &[]);
    tagged.id = "tagged".to_string();
    let document = MetadataDocument {
        packages: vec![plain, tagged],
        edges: vec![edge("a", "tagged", &[NORMAL], &[]), edge("b", "plain", &[NORMAL], &[])],
    };
    assert_eq!(
        collect_dependencies(&document),
        Err(CollectError::ConflictingVersions {
            package_name: "foo".to_string(),
            first: "1.0.0+tag".to_string(),
            second: "1.0.0".to_string(),
        })
    );
}

#[test]
fn malformed_version_of_a_target_is_refused() {
    let document = MetadataDocument {
        packages: vec![package("good", "1.0.0", &[]), package("bad", "1.0", &[])],
        edges: vec![edge("a", "good 1.0.0", &[NORMAL], &[]), edge("a", "bad 1.0", &[NORMAL], &[])],
    };
    assert_eq!(
        collect_dependencies(&document),
        Err(CollectError::MalformedVersion { package_id: "bad 1.0".to_string() })
    );
}

#[test]
fn malformed_version_of_an_unrequired_package_is_ignored() {
    let document = MetadataDocument {
        packages: vec![package("good", "1.0.0", &[]), package("root", "one", &[])],
        edges: vec![edge("root one", "good 1.0.0", &[NORMAL], &[])],
    };
    let catalog = collect_dependencies(&document).unwrap();
    assert_eq!(catalog.len(), 1);
    assert_eq!(catalog[0].package_name, "good");
}

#[test]
fn unknown_target_is_refused() {
    let document = MetadataDocument {
        packages: vec![package("good", "1.0.0", &[])],
        edges: vec![edge("a", "good 1.0.0", &[NORMAL], &[]), edge("a", "missing 1.0.0", &[NORMAL], &[])],
    };
    assert_eq!(
        collect_dependencies(&document),
        Err(CollectError::UnknownPackage { package_id: "missing 1.0.0".to_string() })
    );
}

#[test]
fn first_defective_edge_decides_the_error() {
    let packages = vec![
        package("foo", "1.0.1", &[]),
        package("foo", "1.0.2", &[]),
        package("bad", "x.y.z", &[]),
    ];
    let conflict_first = MetadataDocument {
        packages: packages.clone(),
        edges: vec![
            edge("a", "foo 1.0.1", &[NORMAL], &[]),
            edge("a", "foo 1.0.2", &[NORMAL], &[]),
            edge("a", "bad x.y.z", &[NORMAL], &[]),
            edge("a", "nowhere", &[NORMAL], &[]),
        ],
    };
    assert_eq!(
        collect_dependencies(&conflict_first),
        Err(CollectError::ConflictingVersions {
            package_name: "foo".to_string(),
            first: "1.0.1".to_string(),
            second: "1.0.2".to_string(),
        })
    );
    let malformed_first = MetadataDocument {
        packages: packages.clone(),
        edges: vec![
            edge("a", "foo 1.0.1", &[NORMAL], &[]),
            edge("a", "bad x.y.z", &[NORMAL], &[]),
            edge("a", "nowhere", &[NORMAL], &[]),
            edge("a", "foo 1.0.2", &[NORMAL], &[]),
        ],
    };
    assert_eq!(
        collect_dependencies(&malformed_first),
        Err(CollectError::MalformedVersion { package_id: "bad x.y.z".to_string() })
    );
    let unknown_first = MetadataDocument {
        packages,
        edges: vec![
            edge("a", "nowhere", &[NORMAL], &[]),
            edge("a", "bad x.y.z", &[NORMAL], &[]),
        ],
    };
    assert_eq!(
        collect_dependencies(&unknown_first),
        Err(CollectError::UnknownPackage { package_id: "nowhere".to_string() })
    );
}

#[test]
fn first_package_with_an_identifier_is_the_one_meant() {
    let mut first = package("first", "1.0.0", &[]);
    first.id = "same".to_string();
    let mut second = package("second", "2.0.0", &[]);
    second.id = "same".to_string();
    let document = MetadataDocument {
        packages: vec![first.clone(), second],
        edges: vec![edge("a", "same", &[NORMAL], &[])],
    };
    assert_eq!(document.find_package("same"), Some(&first));
    assert_eq!(document.find_package("other"), None);
    let catalog = collect_dependencies(&document).unwrap();
    assert_eq!(catalog.len(), 1);
    assert_eq!(catalog[0].package_name, "first");
    assert_eq!(catalog[0].epoch, Epoch::Major(1));
}

#[test]
fn has_kind_reads_the_annotations() {
    let e = edge("a", "b", &[BUILD, NORMAL, BUILD], &[]);
    assert!(e.has_kind(NORMAL));
    assert!(e.has_kind(BUILD));
    assert!(!e.has_kind(DEVELOPMENT));
    let none = edge("a", "b", &[], &[]);
    assert!(!none.has_kind(NORMAL));
}

#[test]
fn activate_unites_features_of_one_kind() {
    let mut table = KindTable::new();
    assert!(table.get(&NORMAL).is_none());
    table.activate(NORMAL, &strings(&["b", "a"]));
    assert_eq!(table.get(&NORMAL).unwrap().features, strings(&["a", "b"]));
    assert!(table.get(&BUILD).is_none());
    table.activate(NORMAL, &strings(&["c", "b"]));
    assert_eq!(table.get(&NORMAL).unwrap().features, strings(&["a", "b", "c"]));
    table.activate(DEVELOPMENT, &Vec::new());
    assert_eq!(table.get(&DEVELOPMENT).unwrap().features, Vec::<String>::new());
    assert_eq!(table.get(&NORMAL).unwrap().features, strings(&["a", "b", "c"]));
    assert!(!table.contains_key(&BUILD));
}

#[test]
fn absorb_adds_an_edge_to_an_entry() {
    let mut entry = Dependency {
        package_name: "p".to_string(),
        epoch: Epoch::Major(1),
        version: "1.0.0".to_string(),
        features: strings(&["declared"]),
        dependency_kinds: KindTable::new(),
    };
    entry.absorb(&edge("a", "p", &[NORMAL, BUILD], &["y", "x"]));
    entry.absorb(&edge("b", "p", &[BUILD], &["z"]));
    assert_eq!(entry.package_name, "p");
    assert_eq!(entry.version, "1.0.0");
    assert_eq!(entry.features, strings(&["declared"]));
    assert_eq!(features_of(&entry, NORMAL), strings(&["x", "y"]));
    assert_eq!(features_of(&entry, BUILD), strings(&["x", "y", "z"]));
    assert!(entry.dependency_kinds.get(&DEVELOPMENT).is_none());
}

#[test]
fn locate_finds_the_place_of_a_bucket() {
    let catalog = collect_dependencies(&sample_document()).unwrap();
    assert_eq!(locate(&catalog, "cc", &Epoch::Major(1)), 0);
    assert_eq!(locate(&catalog, "cc", &Epoch::Minor(1)), 0);
    assert_eq!(locate(&catalog, "cc", &Epoch::Major(2)), 1);
    assert_eq!(locate(&catalog, "a", &Epoch::Major(1)), 0);
    assert_eq!(locate(&catalog, "syn", &Epoch::Major(1)), 7);
    assert_eq!(locate(&catalog, "zzz", &Epoch::Major(1)), 10);
    assert!(catalog[7].is_for("syn", &Epoch::Major(1)));
    assert!(!catalog[7].is_for("syn", &Epoch::Major(2)));
    assert!(catalog[7].precedes("syn", &Epoch::Major(2)));
    assert!(!catalog[7].precedes("syn", &Epoch::Major(1)));
    assert!(catalog[7].precedes("termcolor", &Epoch::Minor(1)));
}

fn requirement(target: &str, kinds: &[DependencyKind]) -> Requirement {
    Requirement {
        target: target.to_string(),
        kinds: kinds.iter().map(|k| KindAnnotation { kind: *k, platform: None }).collect(),
    }
}

fn node(id: &str, features: &[&str], requirements: Vec<Requirement>) -> ResolutionNode {
    ResolutionNode { id: id.to_string(), features: strings(features), requirements }
}

fn sample_nodes() -> Vec<ResolutionNode> {
    vec![
        node("cc 1.0.73", &[], vec![]),
        node("more-asserts 0.3.0", &[], vec![]),
        node("once_cell 1.13.0", &["alloc", "default", "race", "std"], vec![]),
        node(
            "proc-macro2 1.0.40",
            &["default", "proc-macro"],
            vec![requirement("unicode-ident 1.0.1", &[NORMAL])],
        ),
        node(
            "quote 1.0.20",
            &["default", "proc-macro"],
            vec![requirement("proc-macro2 1.0.40", &[NORMAL])],
        ),
        node(
            "sample_package 0.1.0",
            &[],
            vec![
                requirement("cc 1.0.73", &[BUILD]),
                requirement("more-asserts 0.3.0", &[DEVELOPMENT]),
                requirement("once_cell 1.13.0", &[NORMAL]),
                requirement("serde 1.0.139", &[NORMAL]),
                requirement("termcolor 1.1.3", &[NORMAL]),
            ],
        ),
        node(
            "serde 1.0.139",
            &["default", "derive", "serde_derive", "std"],
            vec![requirement("serde_derive 1.0.139", &[NORMAL])],
        ),
        node(
            "serde_derive 1.0.139",
            &["default"],
            vec![
                requirement("proc-macro2 1.0.40", &[NORMAL]),
                requirement("quote 1.0.20", &[NORMAL]),
                requirement("syn 1.0.98", &[NORMAL]),
            ],
        ),
        node(
            "syn 1.0.98",
            &["clone-impls", "default", "derive", "parsing", "printing", "proc-macro", "quote"],
            vec![
                requirement("proc-macro2 1.0.40", &[NORMAL]),
                requirement("quote 1.0.20", &[NORMAL]),
                requirement("unicode-ident 1.0.1", &[NORMAL]),
            ],
        ),
        node("termcolor 1.1.3", &[], vec![]),
        node("unicode-ident 1.0.1", &[], vec![]),
    ]
}

#[test]
fn edges_of_nodes_lists_requirements_in_order() {
    let nodes = vec![
        node("a", &["fa"], vec![requirement("b", &[NORMAL]), requirement("c", &[BUILD, NORMAL])]),
        node("b", &["fb2", "fb1"], vec![requirement("c", &[DEVELOPMENT])]),
        node("c", &[], vec![requirement("missing", &[NORMAL])]),
        node("b", &["shadowed"], vec![]),
    ];
    let edges = edges_of_nodes(&nodes);
    assert_eq!(
        edges,
        vec![
            edge("a", "b", &[NORMAL], &["fb2", "fb1"]),
            edge("a", "c", &[BUILD, NORMAL], &[]),
            edge("b", "c", &[DEVELOPMENT], &[]),
            edge("c", "missing", &[NORMAL], &[]),
        ]
    );
    assert_eq!(edges_of_nodes(&Vec::new()), Vec::new());
    assert_eq!(features_for(&nodes, "b"), strings(&["fb2", "fb1"]));
    assert_eq!(features_for(&nodes, "nobody"), Vec::<String>::new());
}

#[test]
fn clone_kinds_keeps_kinds_and_platforms() {
    let kinds = vec![
        KindAnnotation { kind: BUILD, platform: Some("cfg(unix)".to_string()) },
        KindAnnotation { kind: NORMAL, platform: None },
    ];
    assert_eq!(clone_kinds(&kinds), kinds);
    assert_eq!(clone_kinds(&Vec::new()), Vec::new());
}

#[test]
fn document_from_graph_gives_the_sample_catalog() {
    let packages = sample_document().packages;
    let document = MetadataDocument::from_graph(packages.clone(), &sample_nodes());
    assert_eq!(document.packages, packages);
    assert_eq!(document.edges.len(), 14);
    assert_eq!(collect_dependencies(&document), collect_dependencies(&sample_document()));
}

#[test]
fn declared_features_come_out_sorted() {
    let document = MetadataDocument {
        packages: vec![package("p", "1.0.0", &["z", "a", "m", "a"])],
        edges: vec![edge("r", "p 1.0.0", &[NORMAL], &[])],
    };
    let catalog = collect_dependencies(&document).unwrap();
    assert_eq!(catalog[0].features, strings(&["a", "m", "z"]));
}
