use krates::cfg::{predicate_holds, CfgPredicate};
use krates::builder::{
    crate_name_from_pid, dep_names_match, Cmd, DecomposedRepr, LockOptions, Target,
};
use krates::cm::PackageId;

#[test]
fn decompose_matches() {
    let lock_repr = PackageId {
        repr: "fuser 0.4.1 (git+https://github.com/cberner/fuser?branch=master#b2e7622942e52a28ffa85cdaf48e28e982bb6923)".to_owned(),
    };

    let dep_repr = PackageId {
        repr: "fuser 0.4.1 (git+https://github.com/cberner/fuser#b2e7622942e52a28ffa85cdaf48e28e982bb6923)".to_owned(),
    };

    assert_eq!(
        DecomposedRepr::build(&lock_repr),
        DecomposedRepr::build(&dep_repr)
    );
}

#[test]
fn decompose_parts() {
    let git = PackageId {
        repr: "fuser 0.4.1 (git+https://github.com/cberner/fuser#abc)".to_owned(),
    };
    let d = DecomposedRepr::build(&git);
    assert_eq!(d.name, "fuser");
    assert_eq!(d.version, "0.4.1");
    assert_eq!(d.rev.as_deref(), Some("abc)"));

    let reg = PackageId {
        repr: "serde 1.0.0 (registry+https://github.com/rust-lang/crates.io-index)".to_owned(),
    };
    let d = DecomposedRepr::build(&reg);
    assert_eq!(d.name, "serde");
    assert_eq!(d.version, "1.0.0");
    assert_eq!(d.rev, None);
    assert_ne!(DecomposedRepr::build(&git), DecomposedRepr::build(&reg));
}

#[test]
fn names_match_dash_for_underscore() {
    assert!(dep_names_match("foo-bar", "foo_bar"));
    assert!(dep_names_match("foo_bar", "foo_bar"));
    assert!(!dep_names_match("foo_bar", "foo-bar"));
    assert!(!dep_names_match("foo-bar", "foo_bar_"));
    assert!(!dep_names_match("foo", "bar"));
}

#[test]
fn crate_names_of_ids() {
    let id = PackageId {
        repr: "serde_json 1.0.1 (registry+https://github.com/rust-lang/crates.io-index)".to_owned(),
    };
    assert_eq!(crate_name_from_pid(&id), "serde_json");
}

#[test]
fn invocation_sorts_and_dedups_features() {
    let mut cmd = Cmd::new();
    cmd.features(vec!["b".to_string(), "a".to_string(), "b".to_string()])
        .no_default_features()
        .all_features()
        .lock_opts(LockOptions {
            frozen: true,
            locked: false,
            offline: true,
        })
        .other_options(vec!["--filter-platform".to_string(), "x".to_string()])
        .cargo_path("/bin/cargo");
    let inv = cmd.invocation().unwrap();
    assert_eq!(
        inv.other_options,
        vec![
            "--no-default-features",
            "--all-features",
            "--features",
            "a b",
            "--frozen",
            "--offline",
            "--filter-platform",
            "x",
        ]
    );
    assert_eq!(inv.cargo_path.as_deref(), Some("/bin/cargo"));
    assert_eq!(inv.manifest_path, None);
    assert_eq!(inv.current_dir, None);
}

#[test]
fn invocation_runs_beside_the_manifest() {
    let mut cmd = Cmd::new();
    cmd.current_dir("/elsewhere").manifest_path("/ws/crate/Cargo.toml");
    let inv = cmd.invocation().unwrap();
    assert_eq!(inv.manifest_path.as_deref(), Some("Cargo.toml"));
    assert_eq!(inv.current_dir.as_deref(), Some("/ws/crate"));
    assert!(inv.other_options.is_empty());

    let mut cmd = Cmd::new();
    cmd.current_dir("/elsewhere");
    let inv = cmd.invocation().unwrap();
    assert_eq!(inv.current_dir.as_deref(), Some("/elsewhere"));
    assert_eq!(inv.manifest_path, None);
}

#[test]
fn invocation_refuses_manifest_without_parent() {
    let mut cmd = Cmd::new();
    cmd.manifest_path("");
    assert!(cmd.invocation().is_none());
}

#[test]
fn targets_from_triples() {
    let linux = Target::from_triple("x86_64-unknown-linux-gnu");
    assert!(matches!(linux, Target::Builtin(_)));
    assert_eq!(linux.triple(), "x86_64-unknown-linux-gnu");
    assert_eq!(linux.builtin(), Some("x86_64-unknown-linux-gnu"));

    let custom = Target::from_triple("my-own-target");
    assert!(matches!(custom, Target::Unknown(_)));
    assert_eq!(custom.triple(), "my-own-target");
    assert_eq!(custom.builtin(), None);
}

#[test]
fn bare_manifest_name_runs_in_the_current_directory() {
    let mut cmd = Cmd::new();
    cmd.manifest_path("Cargo.toml");
    let inv = cmd.invocation().unwrap();
    assert_eq!(inv.manifest_path.as_deref(), Some("Cargo.toml"));
    assert_eq!(inv.current_dir, None);
}

#[test]
fn crate_names_of_both_id_forms() {
    let name = |repr: &str| crate_name_from_pid(&PackageId { repr: repr.to_string() });
    assert_eq!(name("bitflags 2.4.2 (registry+https://github.com/rust-lang/crates.io-index)"), "bitflags");
    assert_eq!(name("registry+https://github.com/rust-lang/crates.io-index#bitflags@2.4.2"), "bitflags");
    assert_eq!(name("path+file:///ws/a#0.1.0"), "a");
    assert_eq!(name("git+https://github.com/foo/bar?branch=main#0.1.0"), "bar");
    assert_eq!(name("git+https://github.com/foo/bar?branch=main#baz@0.1.0"), "baz");
}

#[test]
fn cfg_predicates_are_decided() {
    let features = vec!["sse2".to_string()];
    assert!(predicate_holds(&CfgPredicate::Target(Some(true)), &features));
    assert!(!predicate_holds(&CfgPredicate::Target(Some(false)), &features));
    assert!(!predicate_holds(&CfgPredicate::Target(None), &features));
    assert!(predicate_holds(&CfgPredicate::TargetFeature("sse2".to_string()), &features));
    assert!(!predicate_holds(&CfgPredicate::TargetFeature("avx".to_string()), &features));
    assert!(!predicate_holds(&CfgPredicate::Other, &features));
}
