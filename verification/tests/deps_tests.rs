use gnrt::crates::Version;
use gnrt::deps::DepKindInfo;
use gnrt::deps::DepOfDep;
use gnrt::deps::DependencyKind;
use gnrt::deps::DependencyKinds;
use gnrt::deps::GraphError;
use gnrt::deps::Metadata;
use gnrt::deps::Node;
use gnrt::deps::NodeDep;
use gnrt::deps::Package;
use gnrt::deps::PackageMeta;
use gnrt::deps::PackageTarget;
use gnrt::deps::CrateIdError;
use gnrt::deps::collect_dependencies;
use gnrt::deps::requested_crate_ids;
use gnrt::platforms::Cfg;
use gnrt::platforms::CfgExpr;
use gnrt::platforms::Platform;

fn v(major: u64, minor: u64, patch: u64) -> Version {
    Version { major, minor, patch }
}

fn pkg(id: &str, name: &str, version: Version, local: bool) -> PackageMeta {
    PackageMeta {
        id: String::from(id),
        name: String::from(name),
        version,
        targets: vec![PackageTarget {
            kinds: vec![String::from("lib")],
            name: String::from(name),
            src_path: format!("{name}/src/lib.rs"),
        }],
        source: if local { None } else { Some(String::from("registry")) },
    }
}

fn dep(id: &str, kind: DependencyKind, platform: Option<Platform>) -> NodeDep {
    NodeDep { pkg: String::from(id), dep_kinds: vec![DepKindInfo { kind, target: platform }] }
}

fn node(id: &str, features: &[&str], deps: Vec<NodeDep>) -> Node {
    Node {
        id: String::from(id),
        features: features.iter().map(|f| String::from(*f)).collect(),
        deps,
    }
}

fn cfg_windows() -> Platform {
    Platform::Cfg(CfgExpr::Value(Cfg::Name(String::from("windows"))))
}

fn sample_metadata() -> Metadata {
    let packages = vec![
        pkg("id_sample", "sample_package", v(0, 1, 0), true),
        pkg("id_foo", "foo", v(0, 1, 0), true),
        pkg("id_time", "time", v(0, 3, 14), false),
        pkg("id_autocfg", "autocfg", v(1, 1, 0), false),
        pkg("id_cc", "cc", v(1, 0, 73), false),
        pkg("id_more_asserts", "more-asserts", v(0, 3, 0), false),
        pkg("id_num_traits", "num-traits", v(0, 2, 15), false),
        pkg("id_once_cell", "once_cell", v(1, 13, 0), false),
        pkg("id_proc_macro2", "proc-macro2", v(1, 0, 40), false),
        pkg("id_quote", "quote", v(1, 0, 20), false),
        pkg("id_serde", "serde", v(1, 0, 139), false),
        pkg("id_serde_derive", "serde_derive", v(1, 0, 139), false),
        pkg("id_syn", "syn", v(1, 0, 98), false),
        pkg("id_termcolor", "termcolor", v(1, 1, 3), false),
        pkg("id_unicode_ident", "unicode-ident", v(1, 0, 1), false),
        pkg("id_winapi", "winapi", v(0, 3, 9), false),
        pkg("id_winapi_util", "winapi-util", v(0, 1, 5), false),
    ];
    let nodes = vec![
        node(
            "id_sample",
            &[],
            vec![
                dep("id_foo", DependencyKind::Normal, None),
                dep("id_num_traits", DependencyKind::Normal, None),
                dep("id_once_cell", DependencyKind::Normal, None),
                dep("id_serde", DependencyKind::Normal, None),
                dep("id_termcolor", DependencyKind::Normal, None),
                dep("id_cc", DependencyKind::Build, None),
                dep("id_more_asserts", DependencyKind::Development, None),
            ],
        ),
        node("id_foo", &[], vec![dep("id_time", DependencyKind::Normal, None)]),
        node("id_time", &["alloc", "default", "std"], vec![]),
        node("id_autocfg", &[], vec![]),
        node("id_cc", &[], vec![]),
        node("id_more_asserts", &[], vec![]),
        node("id_num_traits", &["default", "std"], vec![dep("id_autocfg", DependencyKind::Build, None)]),
        node("id_once_cell", &["alloc", "default", "race", "std"], vec![]),
        node("id_proc_macro2", &["default", "proc-macro"], vec![dep(
            "id_unicode_ident",
            DependencyKind::Normal,
            None,
        )]),
        node("id_quote", &["default", "proc-macro"], vec![dep("id_proc_macro2", DependencyKind::Normal, None)]),
        node("id_serde", &["default", "derive", "serde_derive", "std"], vec![dep(
            "id_serde_derive",
            DependencyKind::Normal,
            None,
        )]),
        node(
            "id_serde_derive",
            &["default"],
            vec![
                dep("id_proc_macro2", DependencyKind::Normal, None),
                dep("id_quote", DependencyKind::Normal, None),
                dep("id_syn", DependencyKind::Normal, None),
            ],
        ),
        node(
            "id_syn",
            &["clone-impls", "default", "derive", "parsing", "printing", "proc-macro", "quote"],
            vec![
                dep("id_proc_macro2", DependencyKind::Normal, None),
                dep("id_quote", DependencyKind::Normal, None),
                dep("id_unicode_ident", DependencyKind::Normal, None),
            ],
        ),
        node("id_termcolor", &[], vec![dep("id_winapi_util", DependencyKind::Normal, Some(cfg_windows()))]),
        node("id_unicode_ident", &[], vec![]),
        node("id_winapi", &[
            "consoleapi",
            "errhandlingapi",
            "fileapi",
            "minwindef",
            "processenv",
            "std",
            "winbase",
            "wincon",
            "winerror",
            "winnt",
        ], vec![]),
        node("id_winapi_util", &[], vec![dep("id_winapi", DependencyKind::Normal, Some(cfg_windows()))]),
    ];
    Metadata {
        packages,
        nodes,
        root: String::from("id_sample"),
        workspace_members: vec![String::from("id_sample"), String::from("id_foo")],
    }
}

fn sorted(mut deps: Vec<Package>) -> Vec<Package> {
    deps.sort_by(|left, right| {
        left.package_name
            .cmp(&right.package_name)
            .then((left.version.major, left.version.minor, left.version.patch).cmp(&(
                right.version.major,
                right.version.minor,
                right.version.patch,
            )))
    });
    deps
}

fn features(kinds: &DependencyKinds, kind: DependencyKind) -> Vec<String> {
    kinds.get(kind).unwrap().features.clone()
}

#[test]
fn collect_dependencies_on_sample_graph() {
    let metadata = sample_metadata();
    let dependencies = sorted(collect_dependencies(&metadata, None).unwrap());

    let empty: Vec<String> = Vec::new();

    assert_eq!(dependencies.len(), 16);

    let d = &dependencies[0];
    assert_eq!(d.package_name, "autocfg");
    assert_eq!(d.version, v(1, 1, 0));
    assert_eq!(features(&d.dependency_kinds, DependencyKind::Build), empty);
    assert!(!d.is_local);
    assert!(!d.is_workspace_member);

    let d = &dependencies[1];
    assert_eq!(d.package_name, "cc");
    assert_eq!(d.version, v(1, 0, 73));
    assert_eq!(features(&d.dependency_kinds, DependencyKind::Build), empty);

    let d = &dependencies[2];
    assert_eq!(d.package_name, "foo");
    assert_eq!(d.version, v(0, 1, 0));
    assert_eq!(features(&d.dependency_kinds, DependencyKind::Normal), empty);
    assert_eq!(d.dependencies.len(), 1);
    assert_eq!(
        d.dependencies[0],
        DepOfDep {
            package_name: String::from("time"),
            version: v(0, 3, 14),
            platform: None,
        }
    );
    assert!(d.is_local);
    assert!(d.is_workspace_member);

    let d = &dependencies[3];
    assert_eq!(d.package_name, "more-asserts");
    assert_eq!(d.version, v(0, 3, 0));
    assert_eq!(features(&d.dependency_kinds, DependencyKind::Development), empty);
    assert!(d.dependency_kinds.get(DependencyKind::Normal).is_none());

    let d = &dependencies[4];
    assert_eq!(d.package_name, "num-traits");
    assert_eq!(d.version, v(0, 2, 15));
    assert_eq!(features(&d.dependency_kinds, DependencyKind::Normal), vec!["std"]);
    assert_eq!(d.build_dependencies.len(), 1);
    assert_eq!(
        d.build_dependencies[0],
        DepOfDep {
            package_name: String::from("autocfg"),
            version: v(1, 1, 0),
            platform: None,
        }
    );

    let d = &dependencies[5];
    assert_eq!(d.package_name, "once_cell");
    assert_eq!(d.version, v(1, 13, 0));
    assert_eq!(
        features(&d.dependency_kinds, DependencyKind::Normal),
        vec!["alloc", "race", "std"]
    );

    let d = &dependencies[6];
    assert_eq!(d.package_name, "proc-macro2");
    assert_eq!(d.version, v(1, 0, 40));
    assert_eq!(features(&d.dependency_kinds, DependencyKind::Normal), vec!["proc-macro"]);

    let d = &dependencies[7];
    assert_eq!(d.package_name, "quote");
    assert_eq!(d.version, v(1, 0, 20));
    assert_eq!(features(&d.dependency_kinds, DependencyKind::Normal), vec!["proc-macro"]);

    let d = &dependencies[8];
    assert_eq!(d.package_name, "serde");
    assert_eq!(d.version, v(1, 0, 139));
    assert_eq!(
        features(&d.dependency_kinds, DependencyKind::Normal),
        vec!["derive", "serde_derive", "std"]
    );
    assert_eq!(d.dependencies.len(), 1);
    assert_eq!(d.build_dependencies.len(), 0);
    assert_eq!(d.dev_dependencies.len(), 0);
    assert_eq!(
        d.dependencies[0],
        DepOfDep {
            package_name: String::from("serde_derive"),
            version: v(1, 0, 139),
            platform: None,
        }
    );

    let d = &dependencies[9];
    assert_eq!(d.package_name, "serde_derive");
    assert_eq!(d.version, v(1, 0, 139));
    assert_eq!(features(&d.dependency_kinds, DependencyKind::Normal), empty);
    assert_eq!(d.dependencies.len(), 3);
    assert_eq!(
        d.dependencies[0],
        DepOfDep {
            package_name: String::from("proc-macro2"),
            version: v(1, 0, 40),
            platform: None,
        }
    );
    assert_eq!(
        d.dependencies[1],
        DepOfDep { package_name: String::from("quote"), version: v(1, 0, 20), platform: None }
    );
    assert_eq!(
        d.dependencies[2],
        DepOfDep { package_name: String::from("syn"), version: v(1, 0, 98), platform: None }
    );

    let d = &dependencies[10];
    assert_eq!(d.package_name, "syn");
    assert_eq!(d.version, v(1, 0, 98));
    assert_eq!(
        features(&d.dependency_kinds, DependencyKind::Normal),
        vec!["clone-impls", "derive", "parsing", "printing", "proc-macro", "quote"]
    );
    assert_eq!(d.dependencies.len(), 3);
    assert_eq!(
        d.dependencies[2],
        DepOfDep {
            package_name: String::from("unicode-ident"),
            version: v(1, 0, 1),
            platform: None,
        }
    );

    let d = &dependencies[11];
    assert_eq!(d.package_name, "termcolor");
    assert_eq!(d.version, v(1, 1, 3));
    assert_eq!(d.dependencies.len(), 1);
    assert_eq!(
        d.dependencies[0],
        DepOfDep {
            package_name: String::from("winapi-util"),
            version: v(0, 1, 5),
            platform: Some(cfg_windows()),
        }
    );

    let d = &dependencies[12];
    assert_eq!(d.package_name, "time");
    assert_eq!(d.version, v(0, 3, 14));
    assert_eq!(features(&d.dependency_kinds, DependencyKind::Normal), vec!["alloc", "std"]);

    let d = &dependencies[13];
    assert_eq!(d.package_name, "unicode-ident");
    assert_eq!(d.version, v(1, 0, 1));

    let d = &dependencies[14];
    assert_eq!(d.package_name, "winapi");
    assert_eq!(d.version, v(0, 3, 9));
    assert_eq!(
        features(&d.dependency_kinds, DependencyKind::Normal),
        vec![
            "consoleapi",
            "errhandlingapi",
            "fileapi",
            "minwindef",
            "processenv",
            "std",
            "winbase",
            "wincon",
            "winerror",
            "winnt"
        ]
    );
    assert_eq!(d.dependencies.len(), 0);
    assert_eq!(d.build_dependencies.len(), 0);
    assert_eq!(d.dev_dependencies.len(), 0);

    let d = &dependencies[15];
    assert_eq!(d.package_name, "winapi-util");
    assert_eq!(d.version, v(0, 1, 5));
    assert_eq!(d.dependencies.len(), 1);
    assert_eq!(
        d.dependencies[0],
        DepOfDep {
            package_name: String::from("winapi"),
            version: v(0, 3, 9),
            platform: Some(cfg_windows()),
        }
    );
}

#[test]
fn dependencies_for_workspace_member() {
    let metadata = sample_metadata();
    let dependencies = sorted(collect_dependencies(&metadata, Some(vec![String::from(
        "foo",
    )])).unwrap());

    assert_eq!(dependencies.len(), 2);
    assert_eq!(dependencies[0].package_name, "foo");
    assert_eq!(dependencies[0].version, v(0, 1, 0));
    assert_eq!(dependencies[1].package_name, "time");
    assert_eq!(dependencies[1].version, v(0, 3, 14));
    assert_eq!(
        features(&dependencies[1].dependency_kinds, DependencyKind::Normal),
        vec!["alloc", "std"]
    );
}

#[test]
fn duplicate_node_ids_are_fatal() {
    let mut metadata = sample_metadata();
    metadata.nodes.push(node("id_foo", &[], vec![]));
    assert!(matches!(collect_dependencies(&metadata, None), Err(GraphError::DuplicateNodeId)));
}

#[test]
fn duplicate_lib_targets_are_fatal() {
    let mut metadata = sample_metadata();
    metadata.packages[2].targets.push(PackageTarget {
        kinds: vec![String::from("rlib")],
        name: String::from("time2"),
        src_path: String::from("time/src/lib2.rs"),
    });
    assert!(matches!(collect_dependencies(&metadata, None), Err(GraphError::DuplicateLibTarget)));
}

fn bare_package(name: &str, version: Version) -> Package {
    Package {
        package_name: String::from(name),
        version,
        dependencies: Vec::new(),
        build_dependencies: Vec::new(),
        dev_dependencies: Vec::new(),
        dependency_kinds: DependencyKinds { entries: Vec::new() },
        lib_target: None,
        bin_targets: Vec::new(),
        build_script: None,
        dependency_path: Vec::new(),
        is_local: false,
        is_workspace_member: false,
    }
}

#[test]
fn missing_node_is_fatal() {
    let mut metadata = sample_metadata();
    metadata.nodes[1].deps.push(dep("id_nowhere", DependencyKind::Normal, None));
    assert!(matches!(collect_dependencies(&metadata, None), Err(GraphError::MissingNode)));
}

#[test]
fn missing_package_is_fatal() {
    let mut metadata = sample_metadata();
    // A node without a package-table entry cannot be populated.
    metadata.nodes.push(node("id_ghost", &[], vec![]));
    metadata.nodes[1].deps.push(dep("id_ghost", DependencyKind::Normal, None));
    assert!(matches!(collect_dependencies(&metadata, None), Err(GraphError::MissingPackage)));
}

#[test]
fn duplicate_build_scripts_are_fatal() {
    let mut metadata = sample_metadata();
    for _ in 0..2 {
        metadata.packages[2].targets.push(PackageTarget {
            kinds: vec![String::from("custom-build")],
            name: String::from("build-script-build"),
            src_path: String::from("time/build.rs"),
        });
    }
    assert!(matches!(
        collect_dependencies(&metadata, None),
        Err(GraphError::DuplicateBuildScript)
    ));
}

#[test]
fn unknown_dependency_kind_is_fatal() {
    let mut metadata = sample_metadata();
    metadata.nodes[1].deps.push(dep("id_time", DependencyKind::Unknown, None));
    assert!(matches!(
        collect_dependencies(&metadata, None),
        Err(GraphError::UnknownDependencyKind)
    ));
}

#[test]
fn targets_are_classified() {
    let mut metadata = sample_metadata();
    metadata.packages[2].targets.push(PackageTarget {
        kinds: vec![String::from("custom-build")],
        name: String::from("build-script-build"),
        src_path: String::from("time/build.rs"),
    });
    metadata.packages[2].targets.push(PackageTarget {
        kinds: vec![String::from("bin")],
        name: String::from("timer"),
        src_path: String::from("time/src/bin/timer.rs"),
    });
    metadata.packages[2].targets.push(PackageTarget {
        kinds: vec![String::from("example")],
        name: String::from("demo"),
        src_path: String::from("time/examples/demo.rs"),
    });
    let dependencies = sorted(collect_dependencies(&metadata, None).unwrap());
    let time = dependencies.iter().find(|d| d.package_name == "time").unwrap();
    let lib = time.lib_target.as_ref().unwrap();
    assert_eq!(lib.root, "time/src/lib.rs");
    assert_eq!(lib.lib_type, gnrt::deps::LibType::Rlib);
    assert_eq!(time.build_script.as_deref(), Some("time/build.rs"));
    assert_eq!(time.bin_targets.len(), 1);
    assert_eq!(time.bin_targets[0].name, "timer");
    assert_eq!(time.bin_targets[0].root, "time/src/bin/timer.rs");
}

#[test]
fn duplicate_epochs_are_fatal() {
    let deps = vec![bare_package("x", v(1, 2, 0)), bare_package("x", v(1, 5, 0))];
    assert_eq!(requested_crate_ids(&deps), Err(CrateIdError::DuplicateEpoch));
}

#[test]
fn distinct_epochs_are_accepted() {
    let deps = vec![
        bare_package("x", v(1, 2, 0)),
        bare_package("x", v(2, 0, 0)),
        bare_package("y", v(1, 2, 0)),
        bare_package("z", v(0, 3, 1)),
    ];
    let ids = requested_crate_ids(&deps).unwrap();
    assert_eq!(ids.len(), 4);
    assert_eq!(ids[0].build_path(), "x/v1");
    assert_eq!(ids[1].build_path(), "x/v2");
    assert_eq!(ids[2].build_path(), "y/v1");
    assert_eq!(ids[3].build_path(), "z/v0_3");
}

#[test]
fn no_epoch_is_fatal() {
    let deps = vec![bare_package("x", v(0, 0, 3))];
    assert_eq!(requested_crate_ids(&deps), Err(CrateIdError::NoEpoch));
}

#[test]
fn unsupported_platform_edges_are_dropped() {
    let mut metadata = sample_metadata();
    // An edge only for an unsupported platform never surfaces its target.
    let wasi = Platform::Cfg(CfgExpr::Value(Cfg::KeyPair(
        String::from("target_os"),
        String::from("wasi"),
    )));
    metadata.packages.push(pkg("id_extra", "extra", v(1, 0, 0), false));
    metadata.nodes.push(node("id_extra", &[], vec![]));
    metadata.nodes[1].deps.push(dep("id_extra", DependencyKind::Normal, Some(wasi)));
    let dependencies = sorted(collect_dependencies(&metadata, None).unwrap());
    assert_eq!(dependencies.len(), 16);
    assert!(dependencies.iter().all(|d| d.package_name != "extra"));
}
