use krates::cm::{CrateType, DependencyKind, Edition, FeatureMap, PackageId, Source, TargetKind};
use krates::krates::DepKind;
use krates::set::StringSet;
use krates::version::{Version, VersionReq};

#[test]
fn target_kinds_parse() {
    assert_eq!("lib".parse::<TargetKind>().unwrap(), TargetKind::Lib);
    assert_eq!("proc-macro".parse::<TargetKind>().unwrap(), TargetKind::ProcMacro);
    assert_eq!("custom-build".parse::<TargetKind>().unwrap(), TargetKind::CustomBuild);
    assert_eq!(
        "nope".parse::<TargetKind>().unwrap_err(),
        "unknown target kind nope"
    );
}

#[test]
fn crate_types_parse() {
    assert_eq!("cdylib".parse::<CrateType>().unwrap(), CrateType::CDyLib);
    assert_eq!("rlib".parse::<CrateType>().unwrap(), CrateType::RLib);
    assert!("nope".parse::<CrateType>().is_err());
}

#[test]
fn editions_roundtrip() {
    for e in [Edition::E2015, Edition::E2018, Edition::E2021, Edition::E2024] {
        assert_eq!(e.as_str().parse::<Edition>().unwrap(), e);
    }
    assert_eq!(Edition::E2021.as_str(), "2021");
    assert!("2020".parse::<Edition>().is_err());
}

#[test]
fn dependency_kinds() {
    assert_eq!(DependencyKind::default(), DependencyKind::Normal);
    assert_eq!(DependencyKind::Development.as_str(), "dev");
    assert_eq!(DependencyKind::from_name(Some("build")), Some(DependencyKind::Build));
    assert_eq!(DependencyKind::from_name(None), Some(DependencyKind::Normal));
    assert_eq!(DependencyKind::from_name(Some("other")), None);
    assert_eq!(DepKind::from(DependencyKind::Development), DepKind::Dev);
    assert!(DepKind::Build.matches_kind(DependencyKind::Build));
    assert!(!DepKind::Build.matches_kind(DependencyKind::Normal));
    assert_eq!(DepKind::Normal.as_str(), "");
    assert_eq!(DepKind::Dev.as_str(), "dev");
}

#[test]
fn crates_io_source() {
    let s = Source {
        repr: "registry+https://github.com/rust-lang/crates.io-index".to_string(),
    };
    assert!(s.is_crates_io());
    let g = Source {
        repr: "git+https://github.com/a/b".to_string(),
    };
    assert!(!g.is_crates_io());
}

#[test]
fn package_ids_compare() {
    let a = PackageId { repr: "a 1.0.0 (x)".to_string() };
    let b = PackageId { repr: "b 1.0.0 (x)".to_string() };
    assert_eq!(a.compare(&b), krates::text::Order::Less);
    assert!(a.same(&a.duplicate()));
    assert!(!a.same(&b));
}

#[test]
fn feature_maps_keep_order() {
    let mut fm = FeatureMap::new();
    fm.insert("z".to_string(), vec!["a".to_string()]);
    fm.insert("a".to_string(), vec![]);
    fm.insert("z".to_string(), vec!["b".to_string()]);
    assert_eq!(fm.len(), 2);
    let keys: Vec<&String> = fm.entries().iter().map(|(k, _)| k).collect();
    assert_eq!(keys, vec!["a", "z"]);
    assert_eq!(fm.get("z").unwrap(), &vec!["b".to_string()]);
    assert!(fm.get("q").is_none());
    assert!(fm.contains_key("a"));
}

#[test]
fn string_sets_sort_and_dedup() {
    let s = StringSet::from_strings(&vec!["b".to_string(), "a".to_string(), "b".to_string()]);
    assert_eq!(s.items(), &vec!["a".to_string(), "b".to_string()]);
    assert_eq!(s.len(), 2);
    assert!(s.contains("a"));
    assert!(!s.contains("c"));
    let mut t = StringSet::new();
    assert!(t.insert("x".to_string()));
    assert!(!t.insert("x".to_string()));
}

#[test]
fn versions_and_requirements() {
    let v = Version::parse("1.2.3-alpha+build").unwrap();
    assert_eq!((v.major, v.minor, v.patch), (1, 2, 3));
    assert_eq!(v.pre, "alpha");
    assert_eq!(v.build, "build");
    assert!(Version::parse("1.2").is_none());
    let req = VersionReq::parse(">=1.0, <2").unwrap();
    assert!(req.matches(&Version::parse("1.5.0").unwrap()));
    assert!(!req.matches(&Version::parse("2.0.0").unwrap()));
    assert!(VersionReq::star().matches(&Version::parse("9.9.9").unwrap()));
    assert!(!VersionReq::star().matches(&Version::parse("1.0.0-pre").unwrap()));
}

#[test]
fn target_kinds_and_crate_types_are_written_back_as_their_names() {
    let names = [
        "example", "test", "bench", "custom-build", "bin", "lib", "rlib", "dylib", "cdylib", "staticlib",
        "proc-macro",
    ];
    for n in names {
        assert_eq!(TargetKind::parse(n).unwrap().as_str(), n);
    }
    for n in ["bin", "lib", "rlib", "dylib", "cdylib", "staticlib", "proc-macro"] {
        assert_eq!(CrateType::parse(n).unwrap().as_str(), n);
    }
}
