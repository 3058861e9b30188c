use krates::builder::{Builder, NoneFilter, Scope, Target};
use krates::cm::DependencyKind::{Build, Development, Normal};
use krates::cm::{
    DepKindInfo, Dependency, DependencyKind, Edition, FeatureMap, Metadata, Node as ResolveNode,
    NodeDep, Package, PackageId, Resolve, Source, WorkspaceDefaultMembers,
};
use krates::errors::Error;
use krates::graph::Direction;
use krates::krates::{DepKind, Edge, KrateDetails, Krates, Node};
use krates::pkgspec::PkgSpec;
use krates::version::{Version, VersionReq};

const REG: &str = "registry+https://github.com/rust-lang/crates.io-index";

fn pid(name: &str, version: &str, src: &str) -> PackageId {
    PackageId {
        repr: format!("{name} {version} ({src})"),
    }
}

fn ws(name: &str) -> PackageId {
    pid(name, "0.1.0", &format!("path+file:///ws/{name}"))
}

fn reg(name: &str) -> PackageId {
    pid(name, "1.0.0", REG)
}

fn dep(
    name: &str,
    kind: DependencyKind,
    optional: bool,
    uses_default_features: bool,
    features: &[&str],
    target: Option<&str>,
) -> Dependency {
    Dependency {
        name: name.to_string(),
        source: Some(REG.to_string()),
        req: VersionReq::star(),
        kind,
        optional,
        uses_default_features,
        features: features.iter().map(|s| s.to_string()).collect(),
        target: target.map(|s| s.to_string()),
        rename: None,
        registry: None,
        path: None,
    }
}

fn package(id: &PackageId, deps: Vec<Dependency>, features: &[(&str, &[&str])]) -> Package {
    let mut parts = id.repr.splitn(3, ' ');
    let name = parts.next().unwrap().to_string();
    let version = Version::parse(parts.next().unwrap()).unwrap();
    let src = parts.next().unwrap();
    let src = &src[1..src.len() - 1];
    let (source, manifest_path) = if let Some(path) = src.strip_prefix("path+file://") {
        (None, format!("{path}/Cargo.toml"))
    } else {
        (
            Some(Source {
                repr: src.to_string(),
            }),
            format!("/registry/{name}/Cargo.toml"),
        )
    };
    let mut fm = FeatureMap::new();
    for (k, v) in features {
        fm.insert(k.to_string(), v.iter().map(|s| s.to_string()).collect());
    }
    Package {
        name,
        version,
        authors: vec![],
        id: id.clone(),
        source,
        description: None,
        dependencies: deps,
        license: None,
        license_file: None,
        targets: vec![],
        features: fm,
        manifest_path,
        categories: vec![],
        keywords: vec![],
        readme: None,
        repository: None,
        homepage: None,
        documentation: None,
        edition: Edition::E2021,
        metadata: "null".to_string(),
        links: None,
        publish: None,
        default_run: None,
        rust_version: None,
    }
}

fn node_dep(name: &str, pkg: &PackageId, kinds: &[(DependencyKind, Option<&str>)]) -> NodeDep {
    NodeDep {
        name: name.to_string(),
        pkg: pkg.clone(),
        dep_kinds: kinds
            .iter()
            .map(|(kind, target)| DepKindInfo {
                kind: *kind,
                target: target.map(|t| t.to_string()),
            })
            .collect(),
    }
}

fn node(id: &PackageId, deps: Vec<NodeDep>, features: &[&str]) -> ResolveNode {
    ResolveNode {
        id: id.clone(),
        dependencies: deps.iter().map(|d| d.pkg.clone()).collect(),
        deps,
        features: features.iter().map(|s| s.to_string()).collect(),
    }
}

/// A workspace of `a` and `b`: `a` depends on `c` (normal, with its feature
/// `x`), on `d` (dev) and on `e` (build, only on windows); `b` depends on
/// `c` with its default features. `c`'s `default` feature enables `x`.
fn metadata(root: Option<PackageId>) -> Metadata {

    let (a, b, c, d, e) = (ws("a"), ws("b"), reg("c"), reg("d"), reg("e"));
    let packages = vec![
        package(&c, vec![], &[("default", &["x"]), ("x", &[]), ("y", &[])]),
        package(
            &a,
            vec![
                dep("c", Normal, false, true, &["x"], None),
                dep("d", Development, false, true, &[], None),
                dep("e", Build, false, true, &[], Some("cfg(windows)")),
            ],
            &[],
        ),
        package(&e, vec![], &[]),
        package(&b, vec![dep("c", Normal, false, true, &[], None)], &[]),
        package(&d, vec![], &[]),
    ];
    let nodes = vec![
        node(
            &a,
            vec![
                node_dep("c", &c, &[(Normal, None)]),
                node_dep("d", &d, &[(Development, None)]),
                node_dep("e", &e, &[(Build, Some("cfg(windows)"))]),
            ],
            &[],
        ),
        node(&b, vec![node_dep("c", &c, &[(Normal, None)])], &[]),
        node(&c, vec![], &["default", "x"]),
        node(&d, vec![], &[]),
        node(&e, vec![], &[]),
    ];
    Metadata {
        packages,
        workspace_members: vec![b.clone(), a.clone()],
        workspace_default_members: WorkspaceDefaultMembers(None),
        resolve: Some(Resolve { nodes, root }),
        workspace_root: "/ws".to_string(),
        target_directory: "/ws/target".to_string(),
        workspace_metadata: "null".to_string(),
        version: 1,
    }
}

fn build(b: Builder, md: Metadata) -> Result<Krates, Error> {
    b.build_with_metadata::<Package, Edge, NoneFilter>(md, NoneFilter)
}

fn names(k: &Krates) -> Vec<String> {
    k.krates().iter().map(|p| p.name.clone()).collect()
}

fn feature_names(k: &Krates, id: &PackageId) -> Vec<String> {
    k.get_enabled_features(id).unwrap().items().clone()
}

#[test]
fn kind_all_the_things() {
    let k = build(Builder::new(), metadata(None)).unwrap();

    assert_eq!(k.len(), 5);
    assert_eq!(names(&k), vec!["a", "b", "c", "d", "e"]);
    assert_eq!(k.graph().node_count(), 7);
    assert_eq!(k.graph().edge_count(), 8);
    assert_eq!(k.lock_path(), "/ws/Cargo.lock");
    assert_eq!(feature_names(&k, &reg("c")), vec!["default", "x"]);

    let a = k.nid_for_kid(&ws("a")).unwrap();
    let deps = k.get_deps(a);
    assert_eq!(deps.len(), 4);
    assert!(matches!(deps[0].0, Node::Krate { id, .. } if *id == reg("e")));
    assert!(
        matches!(deps[0].1, Edge::Dep { kind: DepKind::Build, cfg: Some(cfg) } if cfg == "cfg(windows)")
    );
    assert!(matches!(deps[1].0, Node::Krate { id, .. } if *id == reg("d")));
    assert!(matches!(deps[1].1, Edge::Dep { kind: DepKind::Dev, cfg: None }));
    assert!(matches!(deps[2].0, Node::Feature { name, .. } if name == "x"));
    assert!(matches!(deps[2].1, Edge::DepFeature { kind: DepKind::Normal, cfg: None }));
    assert!(matches!(deps[3].0, Node::Feature { name, .. } if name == "default"));

    let c = k.nid_for_kid(&reg("c")).unwrap();
    let (x, _) = k.get_node(&reg("c"), Some("x")).unwrap();
    let (default, _) = k.get_node(&reg("c"), Some("default")).unwrap();
    assert_eq!((default, x), (5, 6));
    assert!(k.get_node(&reg("c"), Some("y")).is_none());
    let incoming = k.graph().edges_directed(c, Direction::Incoming);
    assert_eq!(incoming.len(), 2);

    let members: Vec<&Node<Package>> = k.workspace_members();
    assert_eq!(members.len(), 2);
    assert!(matches!(members[0], Node::Krate { id, .. } if *id == ws("a")));
}

#[test]
fn edges_describe_themselves() {
    let k = build(Builder::new(), metadata(None)).unwrap();
    let a = k.nid_for_kid(&ws("a")).unwrap();
    let texts: Vec<String> = k.get_deps(a).iter().map(|(_, e)| e.describe()).collect();
    assert_eq!(texts, vec!["(build) 'cfg(windows)'", "(dev)", "feature", "feature"]);
}

#[test]
fn no_resolve_graph() {
    let mut md = metadata(None);
    md.resolve = None;
    assert!(matches!(build(Builder::new(), md), Err(Error::NoResolveGraph)));
}

#[test]
fn no_roots() {
    let mut b = Builder::new();
    b.exclude(vec!["a".parse::<PkgSpec>().unwrap(), "b".parse().unwrap()]);
    assert!(matches!(build(b, metadata(None)), Err(Error::NoRootKrates)));
}

#[test]
fn excludes_dependencies() {
    let mut b = Builder::new();
    b.exclude(vec!["c:1.0.0".parse::<PkgSpec>().unwrap()]);
    let k = build(b, metadata(None)).unwrap();
    assert_eq!(names(&k), vec!["a", "b", "d", "e"]);
    assert!(k.nid_for_kid(&reg("c")).is_none());
    // without c there is no feature node either
    assert_eq!(k.graph().node_count(), 4);
}

#[test]
fn filters_dev_everywhere() {
    let mut b = Builder::new();
    b.ignore_kind(DepKind::Dev, Scope::All);
    let mut filtered: Vec<Package> = Vec::new();
    let k: Krates = b.build_with_metadata(metadata(None), &mut filtered).unwrap();
    assert_eq!(names(&k), vec!["a", "b", "c", "e"]);
    assert_eq!(filtered.len(), 1);
    assert_eq!(filtered[0].name, "d");
}

#[test]
fn filters_build_outside_workspace_only() {
    let mut b = Builder::new();
    b.ignore_kind(DepKind::Build, Scope::NonWorkspace);
    let k = build(b, metadata(None)).unwrap();
    assert_eq!(k.len(), 5);

    let mut b = Builder::new();
    b.ignore_kind(DepKind::Build, Scope::Workspace);
    let k = build(b, metadata(None)).unwrap();
    assert_eq!(names(&k), vec!["a", "b", "c", "d"]);
}

#[test]
fn ignores_non_windows() {
    let mut b = Builder::new();
    b.include_targets(vec![(Target::from_triple("x86_64-unknown-linux-gnu"), vec![])]);
    let k = build(b, metadata(None)).unwrap();
    assert_eq!(names(&k), vec!["a", "b", "c", "d"]);

    let mut b = Builder::new();
    b.include_targets(vec![
        (Target::from_triple("x86_64-unknown-linux-gnu"), vec![]),
        (Target::from_triple("x86_64-pc-windows-msvc"), vec![]),
    ]);
    let k = build(b, metadata(None)).unwrap();
    assert_eq!(k.len(), 5);
}

#[test]
fn unknown_target_only_matches_its_triple() {
    let mut b = Builder::new();
    b.include_targets(vec![(Target::from_triple("my-own-target"), vec![])]);
    let k = build(b, metadata(None)).unwrap();
    assert_eq!(names(&k), vec!["a", "b", "c", "d"]);
}

#[test]
fn root_crate_only() {
    let k = build(Builder::new(), metadata(Some(ws("a")))).unwrap();
    assert_eq!(names(&k), vec!["a", "c", "d", "e"]);

    let mut b = Builder::new();
    b.workspace(true);
    let k = build(b, metadata(Some(ws("a")))).unwrap();
    assert_eq!(k.len(), 5);
}

#[test]
fn includes_workspace_crates() {
    let mut b = Builder::new();
    b.include_workspace_crates(vec!["/ws/b".to_string()]);
    let k = build(b, metadata(None)).unwrap();
    assert_eq!(names(&k), vec!["b", "c"]);
    // only the default feature is enabled through b, which turns on x
    assert_eq!(feature_names(&k, &reg("c")), vec!["default", "x"]);

    let mut b = Builder::new();
    b.include_workspace_crates(vec!["/ws/Cargo.toml".to_string()]);
    let k = build(b, metadata(None)).unwrap();
    assert_eq!(k.len(), 5);
}

#[test]
fn queries_by_name_and_version() {
    let k = build(Builder::new(), metadata(None)).unwrap();
    let found = k.krates_by_name("c");
    assert_eq!(found.len(), 1);
    assert_eq!(found[0].0, 2);
    assert_eq!(found[0].1.version().major, 1);
    assert!(k.krates_by_name("zzz").is_empty());

    let req = VersionReq::parse("^1").unwrap();
    assert_eq!(k.search_matches("c", &req).len(), 1);
    let req = VersionReq::parse("^2").unwrap();
    assert!(k.search_matches("c", &req).is_empty());
    assert_eq!(k.krate_at(2).name(), "c");
    assert!(k.node_for_kid(&reg("zzz")).is_none());
}

#[test]
fn optional_dependency_needs_its_feature() {

    let (a, f) = (ws("a"), reg("f"));
    let md = Metadata {
        packages: vec![
            package(&a, vec![dep("f", Normal, true, true, &[], None)], &[("f", &["dep:f"])]),
            package(&f, vec![], &[]),
        ],
        workspace_members: vec![a.clone()],
        workspace_default_members: WorkspaceDefaultMembers(None),
        resolve: Some(Resolve {
            nodes: vec![
                node(&a, vec![node_dep("f", &f, &[(Normal, None)])], &[]),
                node(&f, vec![], &[]),
            ],
            root: None,
        }),
        workspace_root: "/ws".to_string(),
        target_directory: "/ws/target".to_string(),
        workspace_metadata: "null".to_string(),
        version: 1,
    };
    let k = build(Builder::new(), md.clone()).unwrap();
    assert_eq!(names(&k), vec!["a"]);

    let mut enabled = md;
    enabled.resolve.as_mut().unwrap().nodes[0].features = vec!["f".to_string()];
    let k = build(Builder::new(), enabled).unwrap();
    assert_eq!(names(&k), vec!["a", "f"]);
    // the feature f of a links to the crate f
    let (fnode, _) = k.get_node(&a, Some("f")).unwrap();
    let deps = k.get_deps(fnode);
    assert_eq!(deps.len(), 2);
}

#[test]
fn metadata_queries() {
    let md = metadata(Some(ws("b")));
    assert_eq!(md.root_package().unwrap().name, "b");
    let members: Vec<&str> = md.workspace_packages().iter().map(|p| p.name.as_str()).collect();
    assert_eq!(members, vec!["a", "b"]);
    assert_eq!(md.package(&reg("d")).name, "d");

    let mut no_resolve = metadata(None);
    no_resolve.resolve = None;
    // without a resolved graph, the root package is the one whose manifest
    // is the workspace's
    assert!(no_resolve.root_package().is_none());

    let mut with_defaults = metadata(None);
    with_defaults.workspace_default_members = WorkspaceDefaultMembers(Some(vec![ws("a")]));
    assert_eq!(with_defaults.workspace_default_members.members(), &vec![ws("a")]);
    let defaults: Vec<&str> = with_defaults
        .workspace_default_packages()
        .iter()
        .map(|p| p.name.as_str())
        .collect();
    assert_eq!(defaults, vec!["a"]);
}

#[test]
fn package_files_beside_manifest() {
    let mut p = package(&ws("a"), vec![], &[]);
    assert!(p.license_file().is_none());
    p.license_file = Some("LICENSE".to_string());
    p.readme = Some("docs/README.md".to_string());
    assert_eq!(p.license_file().unwrap(), "/ws/a/LICENSE");
    assert_eq!(p.readme().unwrap(), "/ws/a/docs/README.md");
}

#[test]
fn consistency_checks() {
    let md = metadata(None);
    assert!(krates::construct::metadata_is_consistent(&md));
    let mut broken = metadata(None);
    broken.workspace_members.push(reg("zzz"));
    assert!(!krates::construct::metadata_is_consistent(&broken));
    let mut dup = metadata(None);
    let first = dup.packages[0].clone();
    dup.packages.push(first);
    assert!(!krates::construct::metadata_is_consistent(&dup));

    let mut b = Builder::new();
    b.exclude(vec!["c".parse::<PkgSpec>().unwrap()]);
    assert!(b.exclusions_are_defined(&md));
}

#[test]
fn exclusion_by_url() {
    let mut b = Builder::new();
    b.exclude(vec!["https://github.com/rust-lang/crates.io-index#d".parse::<PkgSpec>().unwrap()]);
    let k = build(b, metadata(None)).unwrap();
    assert_eq!(names(&k), vec!["a", "b", "c", "e"]);
}

#[test]
fn root_crates_start_with_resolved_features() {
    let mut md = metadata(None);
    md.packages[1].features.insert("std".to_string(), vec![]);
    md.resolve.as_mut().unwrap().nodes[0].features = vec!["std".to_string()];
    // a feature cargo resolved for a crate that is no root is not taken over
    md.resolve.as_mut().unwrap().nodes[2].features =
        vec!["default".to_string(), "x".to_string(), "y".to_string()];
    let k = build(Builder::new(), md).unwrap();
    assert_eq!(feature_names(&k, &ws("a")), vec!["std"]);
    assert!(k.get_node(&ws("a"), Some("std")).is_some());
    assert_eq!(feature_names(&k, &reg("c")), vec!["default", "x"]);
}

#[test]
fn feature_nodes_name_enabled_features() {
    let k = build(Builder::new(), metadata(None)).unwrap();
    let mut seen = 0;
    for n in k.graph().raw_nodes() {
        if let Node::Feature { krate_index, name } = n {
            match k.graph().node(*krate_index) {
                Node::Krate { features, .. } => assert!(features.contains(name)),
                Node::Feature { .. } => panic!("a feature node belongs to a crate"),
            }
            seen += 1;
        }
    }
    assert_eq!(seen, 2);
}

/// A metadata of the workspace crate `a` alone, with the optional
/// dependency `f`, the features given and the features cargo resolved.
fn single(features: &[(&str, &[&str])], resolved: &[&str]) -> Metadata {
    let (a, f) = (ws("a"), reg("f"));
    Metadata {
        packages: vec![
            package(&a, vec![dep("f", Normal, true, true, &[], None)], features),
            package(&f, vec![], &[("x", &[])]),
        ],
        workspace_members: vec![a.clone()],
        workspace_default_members: WorkspaceDefaultMembers(None),
        resolve: Some(Resolve {
            nodes: vec![
                node(&a, vec![node_dep("f", &f, &[(Normal, None)])], resolved),
                node(&f, vec![], &[]),
            ],
            root: None,
        }),
        workspace_root: "/ws".to_string(),
        target_directory: "/ws/target".to_string(),
        workspace_metadata: "null".to_string(),
        version: 1,
    }
}

#[test]
fn weak_feature_keeps_optional_dependency_out() {
    // `w` only enables `x` of `f` if something else enables `f`
    let k = build(Builder::new(), single(&[("w", &["f?/x"])], &["w"])).unwrap();
    assert_eq!(names(&k), vec!["a"]);
    let (w, _) = k.get_node(&ws("a"), Some("w")).unwrap();
    // the feature links to its crate only
    assert_eq!(k.get_deps(w).len(), 1);
}

#[test]
fn strong_feature_brings_optional_dependency_in() {
    let k = build(Builder::new(), single(&[("f", &["dep:f"]), ("s", &["f/x"])], &["f", "s"])).unwrap();
    assert_eq!(names(&k), vec!["a", "f"]);
    assert_eq!(feature_names(&k, &reg("f")), vec!["x"]);
}

#[test]
fn cyclic_features_end() {
    let k = build(Builder::new(), single(&[("p", &["q"]), ("q", &["p"])], &["p", "q"])).unwrap();
    assert_eq!(names(&k), vec!["a"]);
    assert_eq!(feature_names(&k, &ws("a")), vec!["p", "q"]);
    assert!(k.get_node(&ws("a"), Some("p")).is_some());
    assert!(k.get_node(&ws("a"), Some("q")).is_some());
}

/// A metadata of the workspace crate `a` with one dependency on `g`, which
/// has a `default` feature, declared with the default features and
/// features given.
fn linked(uses_default: bool, features: &[&str]) -> Metadata {
    let (a, g) = (ws("a"), reg("g"));
    Metadata {
        packages: vec![
            package(&a, vec![dep("g", Normal, false, uses_default, features, None)], &[]),
            package(&g, vec![], &[("default", &[]), ("z", &[])]),
        ],
        workspace_members: vec![a.clone()],
        workspace_default_members: WorkspaceDefaultMembers(None),
        resolve: Some(Resolve {
            nodes: vec![
                node(&a, vec![node_dep("g", &g, &[(Normal, None)])], &[]),
                node(&g, vec![], &["default"]),
            ],
            root: None,
        }),
        workspace_root: "/ws".to_string(),
        target_directory: "/ws/target".to_string(),
        workspace_metadata: "null".to_string(),
        version: 1,
    }
}

#[test]
fn every_dependency_is_an_edge() {
    for (uses_default, features) in [(true, vec![]), (false, vec![]), (false, vec!["z"]), (true, vec!["default"])] {
        let k = build(Builder::new(), linked(uses_default, &features)).unwrap();
        assert_eq!(names(&k), vec!["a", "g"]);
        let a = k.nid_for_kid(&ws("a")).unwrap();
        let g = k.nid_for_kid(&reg("g")).unwrap();
        let deps = k.get_deps(a);
        assert!(!deps.is_empty());
        for (target, _) in deps {
            match target {
                Node::Krate { id, .. } => assert_eq!(*id, reg("g")),
                Node::Feature { krate_index, .. } => assert_eq!(*krate_index, g),
            }
        }
    }
}

#[test]
fn link_naming_only_default_without_default_features_adds_no_edge() {
    let k = build(Builder::new(), linked(false, &["default"])).unwrap();
    // the dependency is in the graph, but no edge leads to it
    assert_eq!(names(&k), vec!["a", "g"]);
    let a = k.nid_for_kid(&ws("a")).unwrap();
    assert!(k.get_deps(a).is_empty());
}

#[test]
fn dependency_links_enable_features() {
    let k = build(Builder::new(), linked(true, &["z"])).unwrap();
    assert_eq!(feature_names(&k, &reg("g")), vec!["default", "z"]);
    let k = build(Builder::new(), linked(false, &["z"])).unwrap();
    assert_eq!(feature_names(&k, &reg("g")), vec!["z"]);
    let k = build(Builder::new(), linked(false, &[])).unwrap();
    assert!(feature_names(&k, &reg("g")).is_empty());
}

#[test]
fn crate_features_turn_on_dependency_features() {
    let mut md = linked(false, &[]);
    md.packages[0].features.insert("s".to_string(), vec!["t".to_string()]);
    md.packages[0].features.insert("t".to_string(), vec!["g/z".to_string()]);
    md.resolve.as_mut().unwrap().nodes[0].features = vec!["s".to_string(), "t".to_string()];
    md.resolve.as_mut().unwrap().nodes[1].features = vec!["default".to_string(), "z".to_string()];
    let k = build(Builder::new(), md).unwrap();
    // `s` turns on `t`, which turns on `z` of `g`
    assert_eq!(feature_names(&k, &reg("g")), vec!["z"]);
    assert!(k.get_node(&reg("g"), Some("z")).is_some());
}

#[test]
fn enabled_declared_features_link_to_their_crates() {
    let k = build(Builder::new(), metadata(None)).unwrap();
    let enabled = feature_names(&k, &reg("c"));
    assert_eq!(enabled, vec!["default", "x"]);
    for f in enabled {
        let (fnode, node) = k.get_node(&reg("c"), Some(&f)).unwrap();
        assert!(fnode >= k.len());
        assert!(matches!(node, Node::Feature { name, .. } if *name == f));
    }
}

#[test]
fn plain_entries_lead_to_feature_nodes() {
    let k = build(Builder::new(), single(&[("p", &["q"]), ("q", &[])], &["p", "q"])).unwrap();
    let a = k.nid_for_kid(&ws("a")).unwrap();
    let (p, _) = k.get_node(&ws("a"), Some("p")).unwrap();
    let targets: Vec<String> = k
        .get_deps(p)
        .iter()
        .filter_map(|(n, _)| match n {
            Node::Feature { krate_index, name } if *krate_index == a => Some(name.clone()),
            _ => None,
        })
        .collect();
    assert_eq!(targets, vec!["q"]);
}

#[test]
fn resolved_features_of_a_dependency_need_an_enabler() {
    let mut md = linked(false, &[]);
    md.resolve.as_mut().unwrap().nodes[1].features = vec!["default".to_string(), "z".to_string()];
    let k = build(Builder::new(), md).unwrap();
    // cargo resolved `default` and `z` on `g`, but no crate of the graph enables them
    assert_eq!(names(&k), vec!["a", "g"]);
    assert!(feature_names(&k, &reg("g")).is_empty());
    assert!(k.get_node(&reg("g"), Some("z")).is_none());
}

#[test]
fn dep_entries_lead_to_dependency_crates() {
    let k = build(Builder::new(), single(&[("f", &["dep:f"])], &["f"])).unwrap();
    assert_eq!(names(&k), vec!["a", "f"]);
    let dep = k.nid_for_kid(&reg("f")).unwrap();
    let (fnode, _) = k.get_node(&ws("a"), Some("f")).unwrap();
    let crates: Vec<String> = k
        .get_deps(fnode)
        .iter()
        .filter_map(|(n, _)| match n {
            Node::Krate { id, .. } => Some(id.repr.clone()),
            _ => None,
        })
        .collect();
    assert!(crates.contains(&reg("f").repr));
    assert!(crates.contains(&ws("a").repr));
    assert!(dep < k.len());
}

#[test]
fn feature_entries_lead_to_dependency_features() {
    let k = build(Builder::new(), single(&[("f", &["dep:f"]), ("s", &["f/x"])], &["f", "s"])).unwrap();
    let dep = k.nid_for_kid(&reg("f")).unwrap();
    let (s, _) = k.get_node(&ws("a"), Some("s")).unwrap();
    let targets: Vec<(usize, String)> = k
        .get_deps(s)
        .iter()
        .filter_map(|(n, _)| match n {
            Node::Feature { krate_index, name } => Some((*krate_index, name.clone())),
            _ => None,
        })
        .collect();
    assert_eq!(targets, vec![(dep, "x".to_string())]);
}

#[test]
fn renamed_dep_entries_lead_to_feature_nodes() {
    let (a, f) = (ws("a"), reg("f"));
    let mut d = dep("f", Normal, true, true, &[], None);
    d.rename = Some("ff".to_string());
    let md = Metadata {
        packages: vec![package(&a, vec![d], &[("r", &["dep:ff"])]), package(&f, vec![], &[])],
        workspace_members: vec![a.clone()],
        workspace_default_members: WorkspaceDefaultMembers(None),
        resolve: Some(Resolve {
            nodes: vec![node(&a, vec![node_dep("ff", &f, &[(Normal, None)])], &["ff", "r"]), node(&f, vec![], &[])],
            root: None,
        }),
        workspace_root: "/ws".to_string(),
        target_directory: "/ws/target".to_string(),
        workspace_metadata: "null".to_string(),
        version: 1,
    };
    let k = build(Builder::new(), md).unwrap();
    assert_eq!(names(&k), vec!["a", "f"]);
    let ai = k.nid_for_kid(&a).unwrap();
    let (r, _) = k.get_node(&a, Some("r")).unwrap();
    let targets: Vec<(usize, String)> = k
        .get_deps(r)
        .iter()
        .filter_map(|(n, _)| match n {
            Node::Feature { krate_index, name } => Some((*krate_index, name.clone())),
            _ => None,
        })
        .collect();
    // `f` has no node for `ff`, so the node belongs to `a`
    assert_eq!(targets, vec![(ai, "ff".to_string())]);
    assert_eq!(feature_names(&k, &a), vec!["ff", "r"]);
}

#[test]
fn reports_left_out_packages_in_id_order() {
    let mut b = Builder::new();
    b.ignore_kind(DepKind::Dev, Scope::All);
    b.ignore_kind(DepKind::Build, Scope::All);
    let (r, left) = b.build_reporting::<Package, Edge>(metadata(None));
    assert_eq!(names(&r.unwrap()), vec!["a", "b", "c"]);
    let left: Vec<String> = left.iter().map(|p| p.name.clone()).collect();
    assert_eq!(left, vec!["d", "e"]);

    let mut b = Builder::new();
    b.exclude(vec!["a".parse::<PkgSpec>().unwrap(), "b".parse().unwrap()]);
    let (r, left) = b.build_reporting::<Package, Edge>(metadata(None));
    assert!(matches!(r, Err(Error::NoRootKrates)));
    assert!(left.is_empty());
}

#[test]
fn edges_never_carry_ignored_kinds() {
    let mut b = Builder::new();
    b.ignore_kind(DepKind::Dev, Scope::All);
    let k = build(b, metadata(None)).unwrap();
    for i in 0..k.len() {
        for (_, e) in k.get_deps(i) {
            assert!(!matches!(e, Edge::Dep { kind: DepKind::Dev, .. } | Edge::DepFeature { kind: DepKind::Dev, .. }));
        }
    }
}

/// The id in cargo's stable form: `<source>#<version>` for a path package
/// named after its directory, `<source>#<name>@<version>` otherwise.
fn stable(id: &PackageId) -> PackageId {
    let mut parts = id.repr.splitn(3, ' ');
    let name = parts.next().unwrap();
    let version = parts.next().unwrap();
    let src = parts.next().unwrap();
    let src = &src[1..src.len() - 1];
    let repr = if src.starts_with("path+") && src.ends_with(&format!("/{name}")) {
        format!("{src}#{version}")
    } else {
        format!("{src}#{name}@{version}")
    };
    PackageId { repr }
}

#[test]
fn stable_ids_give_the_same_graph() {
    let opaque = build(Builder::new(), metadata(None)).unwrap();
    let mut md = metadata(None);
    for p in md.packages.iter_mut() {
        p.id = stable(&p.id);
    }
    for m in md.workspace_members.iter_mut() {
        *m = stable(m);
    }
    for n in md.resolve.as_mut().unwrap().nodes.iter_mut() {
        n.id = stable(&n.id);
        for d in n.dependencies.iter_mut() {
            *d = stable(d);
        }
        for d in n.deps.iter_mut() {
            d.pkg = stable(&d.pkg);
        }
    }
    let k = build(Builder::new(), md).unwrap();
    assert_eq!(names(&k), names(&opaque));
    assert_eq!(k.graph().node_count(), opaque.graph().node_count());
    assert_eq!(k.graph().edge_count(), opaque.graph().edge_count());
    for i in 0..k.len() {
        let texts: Vec<String> = k.get_deps(i).iter().map(|(_, e)| e.describe()).collect();
        let expected: Vec<String> = opaque.get_deps(i).iter().map(|(_, e)| e.describe()).collect();
        assert_eq!(texts, expected);
    }
    assert_eq!(feature_names(&k, &stable(&reg("c"))), vec!["default", "x"]);
}

#[test]
fn workspace_manifest_filter_builds_the_same_graph() {
    let (r1, left1) = Builder::new().build_reporting::<Package, Edge>(metadata(None));
    let mut b = Builder::new();
    b.include_workspace_crates(vec!["/ws/Cargo.toml".to_string()]);
    let (r2, left2) = b.build_reporting::<Package, Edge>(metadata(None));
    let (k1, k2) = (r1.unwrap(), r2.unwrap());
    assert_eq!(names(&k1), names(&k2));
    assert_eq!(k1.graph().edge_count(), k2.graph().edge_count());
    assert_eq!(left1.len(), left2.len());
}

#[test]
fn git_ids_with_branch_specifiers_are_paired_with_their_packages() {
    let a = ws("a");
    let pkg_id = pid("g", "0.1.0", "git+https://github.com/x/g?branch=master#abc");
    let node_id = pid("g", "0.1.0", "git+https://github.com/x/g#abc");
    let md = Metadata {
        packages: vec![
            package(&a, vec![dep("g", Normal, false, true, &[], None)], &[]),
            package(&pkg_id, vec![], &[]),
        ],
        workspace_members: vec![a.clone()],
        workspace_default_members: WorkspaceDefaultMembers(None),
        resolve: Some(Resolve {
            nodes: vec![
                node(&a, vec![node_dep("g", &node_id, &[(Normal, None)])], &[]),
                node(&node_id, vec![], &[]),
            ],
            root: None,
        }),
        workspace_root: "/ws".to_string(),
        target_directory: "/ws/target".to_string(),
        workspace_metadata: "null".to_string(),
        version: 1,
    };
    assert!(krates::construct::metadata_is_consistent(&md));
    let k = build(Builder::new(), md).unwrap();
    assert_eq!(names(&k), vec!["a", "g"]);
    assert!(k.nid_for_kid(&pkg_id).is_some());
    assert!(k.nid_for_kid(&node_id).is_none());
    let a_nid = k.nid_for_kid(&a).unwrap();
    assert_eq!(k.get_deps(a_nid).len(), 1);
}

#[test]
fn ids_that_decompose_differently_are_refused() {
    let a = ws("a");
    let pkg_id = pid("g", "0.1.0", "git+https://github.com/x/g?branch=master#abc");
    let node_id = pid("g", "0.1.0", "git+https://github.com/x/g#def");
    let md = Metadata {
        packages: vec![package(&a, vec![], &[]), package(&pkg_id, vec![], &[])],
        workspace_members: vec![a.clone()],
        workspace_default_members: WorkspaceDefaultMembers(None),
        resolve: Some(Resolve {
            nodes: vec![node(&a, vec![], &[]), node(&node_id, vec![], &[])],
            root: None,
        }),
        workspace_root: "/ws".to_string(),
        target_directory: "/ws/target".to_string(),
        workspace_metadata: "null".to_string(),
        version: 1,
    };
    assert!(!krates::construct::metadata_is_consistent(&md));
}
