use krates::cm::{
    parse_rust_version, Edition, FeatureMap, Package, PackageId, RustVersionError, Source,
};
use krates::index::{fix_features, CachingIndex, IndexKrate, IndexKrateVersion};
use krates::set::StringSet;
use krates::version::Version;

fn features(entries: &[(&str, &[&str])]) -> FeatureMap {
    let mut fm = FeatureMap::new();
    for (k, v) in entries {
        fm.insert(k.to_string(), v.iter().map(|s| s.to_string()).collect());
    }
    fm
}

fn crates_io_package(name: &str, version: &str, fm: FeatureMap, source: &str) -> Package {
    Package {
        name: name.to_string(),
        version: Version::parse(version).unwrap(),
        authors: vec![],
        id: PackageId {
            repr: format!("{name} {version} ({source})"),
        },
        source: Some(Source {
            repr: source.to_string(),
        }),
        description: None,
        dependencies: vec![],
        license: None,
        license_file: None,
        targets: vec![],
        features: fm,
        manifest_path: format!("/registry/{name}/Cargo.toml"),
        categories: vec![],
        keywords: vec![],
        readme: None,
        repository: None,
        homepage: None,
        documentation: None,
        edition: Edition::E2018,
        metadata: "null".to_string(),
        links: None,
        publish: None,
        default_run: None,
        rust_version: None,
    }
}

const CRATES_IO: &str = "registry+https://github.com/rust-lang/crates.io-index";

fn index() -> CachingIndex {
    CachingIndex::new(
        |names: StringSet| {
            assert_eq!(names.items(), &vec!["tokio".to_string()]);
            vec![(
                "tokio".to_string(),
                Some(IndexKrate {
                    versions: vec![IndexKrateVersion {
                        version: Version::parse("1.0.0").unwrap(),
                        features: features(&[("full", &["rt", "net"]), ("rt", &[])]),
                    }],
                }),
            )]
        },
        StringSet::from_strings(&vec!["tokio".to_string()]),
    )
}

#[test]
fn index_lists_features_by_name_and_version() {
    let idx = index();
    let v1 = Version::parse("1.0.0").unwrap();
    assert!(idx.index_krate_features("tokio", &v1).unwrap().contains_key("full"));
    assert!(idx
        .index_krate_features("tokio", &Version::parse("2.0.0").unwrap())
        .is_none());
    assert!(idx.index_krate_features("serde", &v1).is_none());
}

#[test]
fn fixes_crates_io_features() {
    let idx = index();
    let mut p = crates_io_package("tokio", "1.0.0", features(&[("rt", &["x"])]), CRATES_IO);
    fix_features(&idx, &mut p);
    let keys: Vec<&String> = p.features.entries().iter().map(|(k, _)| k).collect();
    // `full` comes from the index, `rt` stays as the package had it, and
    // `net` and `x`, named as plain features that do not exist, become
    // optional dependencies
    assert_eq!(keys, vec!["full", "net", "rt", "x"]);
    assert_eq!(p.features.get("rt").unwrap(), &vec!["x".to_string()]);
    assert_eq!(p.features.get("net").unwrap(), &vec!["dep:net".to_string()]);
    assert_eq!(p.features.get("x").unwrap(), &vec!["dep:x".to_string()]);
}

#[test]
fn leaves_other_sources_alone() {
    let idx = index();
    let mut p = crates_io_package(
        "tokio",
        "1.0.0",
        features(&[("rt", &["x"])]),
        "git+https://github.com/tokio-rs/tokio",
    );
    fix_features(&idx, &mut p);
    assert_eq!(p.features.len(), 1);
}

#[test]
fn rust_versions() {
    let v = parse_rust_version("1.70").unwrap();
    assert_eq!((v.major, v.minor, v.patch), (1, 70, 0));
    let v = parse_rust_version("1.70.1").unwrap();
    assert_eq!((v.major, v.minor, v.patch), (1, 70, 1));
    assert_eq!(parse_rust_version("1.70-beta"), Err(RustVersionError::PreRelease));
    assert_eq!(parse_rust_version("1.70+x"), Err(RustVersionError::BuildMetadata));
    assert_eq!(parse_rust_version("1"), Err(RustVersionError::Invalid));
}
